//! The interactive client: what each line of input does.

use vstd::prelude::*;
use vstd::string::*;

use crate::chars;
use crate::chars::{byte_count, cut, trim};
use crate::client::{ClientView, Collection, GetRequest, QueryRequest, RekhaClient};
use crate::command;
use crate::command::{is_word, parse_command, Command, CommandView};
use crate::display;
use crate::display::{append_padded, append_repeated, format_result, render_timing, OutputFormat};
use crate::display::QueryResult;
use crate::readings::{Readings, ReadingsView};
use crate::json::JsonView;
use crate::sql;
use crate::sql::{parse_query, ParsedQuery, QueryError, QueryErrorView, QueryView};
use crate::text;
use crate::text::{decimal, from_chars, glue, same_text, to_chars};
use crate::types::Embedding;

verus! {

/// The tenant that the interactive client works in.
pub const TENANT: &'static str = "default_tenant";

/// The database that the interactive client works in.
pub const DATABASE: &'static str = "default_database";

/// The state of the interactive client.
pub struct Repl {
    client: RekhaClient,
    collection: Option<String>,
    format: OutputFormat,
    vertical: bool,
    timing: bool,
    pager: bool,
}

/// The state of the interactive client as a mathematical value.
pub struct ReplView {
    pub client: ClientView,
    pub collection: Option<Seq<char>>,
    pub format: OutputFormat,
    pub vertical: bool,
    pub timing: bool,
    pub pager: bool,
}

impl View for Repl {
    type V = ReplView;

    closed spec fn view(&self) -> ReplView {
        ReplView {
            client: self.client@,
            collection: match self.collection {
                Some(c) => Some(c@),
                None => None,
            },
            format: self.format,
            vertical: self.vertical,
            timing: self.timing,
            pager: self.pager,
        }
    }
}

/// What comes from the terminal.
#[derive(Debug, PartialEq)]
pub enum Input {
    Line(String),
    CtrlC,
    CtrlD,
    /// The line could not be read.
    Failed,
    Other,
}

/// What the interactive client is to do.
#[derive(Debug, PartialEq)]
pub enum Action {
    Nothing,
    /// Say goodbye and end.
    Leave,
    /// Print a line.
    Say(String),
    /// Print a line as an error.
    Complain(String),
    ListCollections,
    Describe(String),
    Create(String),
    Drop(String),
    Help,
    Clear,
    /// Run a query.
    Run(ParsedQuery),
    /// Read a text as a single-precision number, and take the line again.
    ReadSingle(String),
    /// Read a text as a double-precision number, and take the line again.
    ReadDouble(String),
}

/// An action as a mathematical value.
pub enum ActionView {
    Nothing,
    Leave,
    Say(Seq<char>),
    Complain(Seq<char>),
    ListCollections,
    Describe(Seq<char>),
    Create(Seq<char>),
    Drop(Seq<char>),
    Help,
    Clear,
    Run(QueryView),
    ReadSingle(Seq<char>),
    ReadDouble(Seq<char>),
}

impl View for Action {
    type V = ActionView;

    open spec fn view(&self) -> ActionView {
        match self {
            Action::Nothing => ActionView::Nothing,
            Action::Leave => ActionView::Leave,
            Action::Say(s) => ActionView::Say(s@),
            Action::Complain(s) => ActionView::Complain(s@),
            Action::ListCollections => ActionView::ListCollections,
            Action::Describe(s) => ActionView::Describe(s@),
            Action::Create(s) => ActionView::Create(s@),
            Action::Drop(s) => ActionView::Drop(s@),
            Action::Help => ActionView::Help,
            Action::Clear => ActionView::Clear,
            Action::Run(q) => ActionView::Run(q@),
            Action::ReadSingle(s) => ActionView::ReadSingle(s@),
            Action::ReadDouble(s) => ActionView::ReadDouble(s@),
        }
    }
}

/// The word for a switch that is on or off.
pub open spec fn switched(on: bool) -> Seq<char> {
    if on {
        "enabled"@
    } else {
        "disabled"@
    }
}

fn switch_word(on: bool) -> (r: &'static str)
    ensures
        r@ == switched(on),
{
    if on {
        "enabled"
    } else {
        "disabled"
    }
}

/// Whether a line is a command.
pub open spec fn is_command(t: Seq<char>) -> bool {
    chars::begins(t, "\\"@) || t == "exit"@ || t == "quit"@ || t == "?"@
}

/// Whether a text names a format.
pub open spec fn names_format(t: Seq<char>) -> bool {
    exists|f: OutputFormat| #[trigger] f.label() == t
}

/// What a command makes of the state, and what is to be done.
pub open spec fn obeyed(
    s: ReplView,
    line: Seq<char>,
    c: CommandView,
    after: ReplView,
    action: ActionView,
) -> bool {
    match c {
        CommandView::Quit => after == s && action == ActionView::Leave,
        CommandView::ListCollections => after == s && action == ActionView::ListCollections,
        CommandView::DescribeCollection(name) => after == s && action == ActionView::Describe(name),
        CommandView::ToggleVertical => after == (ReplView { vertical: !s.vertical, ..s }) && action
            == ActionView::Say("Vertical display "@ + switched(!s.vertical)),
        CommandView::SetFormat(name) => if names_format(name) {
            &&& after == (ReplView { format: after.format, ..s })
            &&& after.format.label() == name
            &&& action == ActionView::Say("Format set to "@ + name)
        } else {
            after == s && action == ActionView::Complain(
                "Unknown format: "@ + name + ". Use table, json, csv, or vertical."@,
            )
        },
        CommandView::TogglePager => after == (ReplView { pager: !s.pager, ..s }) && action
            == ActionView::Say("Pager "@ + switched(!s.pager)),
        CommandView::ToggleTiming => after == (ReplView { timing: !s.timing, ..s }) && action
            == ActionView::Say("Timing "@ + switched(!s.timing)),
        CommandView::CreateCollection(name) => after == s && action == ActionView::Create(name),
        CommandView::UseCollection(name) => after == (ReplView { collection: Some(name), ..s })
            && action == ActionView::Say("Now using collection: "@ + name),
        CommandView::DropCollection(name) => after == s && action == ActionView::Drop(name),
        CommandView::Help => after == s && action == ActionView::Help,
        CommandView::Clear => after == s && action == ActionView::Clear,
        _ => after == s && action == ActionView::Complain("Unknown command: "@ + line),
    }
}

/// What is to be done about a query.
pub open spec fn asked(q: Result<QueryView, QueryErrorView>) -> ActionView {
    match q {
        Ok(q) => ActionView::Run(q),
        Err(QueryErrorView::NeedsSingle(w)) => ActionView::ReadSingle(w),
        Err(QueryErrorView::NeedsDouble(w)) => ActionView::ReadDouble(w),
        Err(e) => ActionView::Complain("Parse error: "@ + e.text()),
    }
}

/// What a line makes of the state, and what is to be done, given how numbers were
/// read.
pub open spec fn stepped(
    s: ReplView,
    input: Seq<char>,
    n: ReadingsView,
    after: ReplView,
    action: ActionView,
) -> bool {
    let t = chars::trimmed(input);
    if t.len() == 0 {
        after == s && action == ActionView::Nothing
    } else if is_command(t) {
        obeyed(s, t, command::command_of(chars::trimmed(t)), after, action)
    } else {
        after == s && action == asked(
            sql::query_of(sql::bare(t), sql::uppercase(sql::bare(t)), n),
        )
    }
}

fn say(before: &str, what: &str) -> (r: String)
    ensures
        r@ == before@ + what@,
{
    let mut s: String = before.to_owned();
    s.append(what);
    s
}

fn answer_query(q: Result<ParsedQuery, QueryError>) -> (action: Action)
    ensures
        q matches Ok(v) ==> action@ == asked(Ok(v@)),
        q matches Err(e) ==> action@ == asked(Err(e@)),
{
    match q {
        Ok(q) => Action::Run(q),
        Err(QueryError::NeedsSingle(w)) => Action::ReadSingle(w),
        Err(QueryError::NeedsDouble(w)) => Action::ReadDouble(w),
        Err(e) => Action::Complain(say("Parse error: ", e.message().as_str())),
    }
}

impl Repl {
    /// A client in its first state.
    pub fn new(client: RekhaClient, initial_collection: Option<&str>) -> (r: Repl)
        ensures
            r@ == (ReplView {
                client: client@,
                collection: match initial_collection {
                    Some(c) => Some(c@),
                    None => None,
                },
                format: OutputFormat::Table,
                vertical: false,
                timing: true,
                pager: true,
            }),
    {
        Repl {
            client,
            collection: match initial_collection {
                Some(c) => Some(c.to_owned()),
                None => None,
            },
            format: OutputFormat::Table,
            vertical: false,
            timing: true,
            pager: true,
        }
    }

    /// The client of the HTTP interface.
    pub fn client(&self) -> (r: &RekhaClient)
        ensures
            r@ == self@.client,
    {
        &self.client
    }

    /// The prompt.
    pub fn prompt(&self) -> (r: String)
        ensures
            r@ == (match self@.collection {
                Some(name) => "rekha:"@ + name + "> "@,
                None => "rekha> "@,
            }),
    {
        match &self.collection {
            Some(name) => glue("rekha:", name.as_str(), "> "),
            None => "rekha> ".to_owned(),
        }
    }

    fn obey(&mut self, line: &Vec<char>, c: Command) -> (action: Action)
        ensures
            obeyed(old(self)@, line@, c@, final(self)@, action@),
    {
        match c {
            Command::Quit => Action::Leave,
            Command::ListCollections => Action::ListCollections,
            Command::DescribeCollection(name) => Action::Describe(name),
            Command::ToggleVertical => {
                self.vertical = !self.vertical;
                Action::Say(say("Vertical display ", switch_word(self.vertical)))
            },
            Command::SetFormat(name) => match OutputFormat::named(name.as_str()) {
                Some(f) => {
                    assert(f.label() == name@);
                    self.format = f;
                    Action::Say(say("Format set to ", f.name()))
                },
                None => Action::Complain(
                    glue("Unknown format: ", name.as_str(), ". Use table, json, csv, or vertical."),
                ),
            },
            Command::TogglePager => {
                self.pager = !self.pager;
                Action::Say(say("Pager ", switch_word(self.pager)))
            },
            Command::ToggleTiming => {
                self.timing = !self.timing;
                Action::Say(say("Timing ", switch_word(self.timing)))
            },
            Command::CreateCollection(name) => Action::Create(name),
            Command::UseCollection(name) => {
                let told: String = say("Now using collection: ", name.as_str());
                self.collection = Some(name);
                Action::Say(told)
            },
            Command::DropCollection(name) => Action::Drop(name),
            Command::Help => Action::Help,
            Command::Clear => Action::Clear,
            _ => Action::Complain(
                say("Unknown command: ", from_chars(line.as_slice()).as_str()),
            ),
        }
    }

    /// Takes a line of input.
    fn take_line(&mut self, line: &str, known: &Readings) -> (action: Action)
        requires
            known.wf(),
        ensures
            stepped(old(self)@, line@, known@, final(self)@, action@),
    {
        let t: Vec<char> = trim(&to_chars(line));
        if t.len() == 0 {
            return Action::Nothing;
        }
        let word: String = from_chars(t.as_slice());
        if chars::starts_with(&t, &to_chars("\\")) || is_word(&t, "exit") || is_word(&t, "quit")
            || is_word(&t, "?") {
            let c: Command = parse_command(word.as_str());
            return self.obey(&t, c);
        }
        answer_query(parse_query(word.as_str(), known))
    }

    /// Takes what comes from the terminal, given how numbers were read. Where a
    /// number of a query was not read yet, the action asks for it, and the input
    /// is to be taken again.
    pub fn step(&mut self, input: &Input, known: &Readings) -> (action: Action)
        requires
            known.wf(),
        ensures
            match *input {
                Input::Line(line) => stepped(old(self)@, line@, known@, final(self)@, action@),
                Input::CtrlC => final(self)@ == old(self)@ && action@ == ActionView::Say("^C"@),
                Input::CtrlD => final(self)@ == old(self)@ && action@ == ActionView::Leave,
                Input::Failed => final(self)@ == old(self)@ && action@ == ActionView::Leave,
                Input::Other => final(self)@ == old(self)@ && action@ == ActionView::Nothing,
            },
    {
        match input {
            Input::Line(line) => self.take_line(line.as_str(), known),
            Input::CtrlC => Action::Say("^C".to_owned()),
            Input::CtrlD => Action::Leave,
            Input::Failed => Action::Leave,
            Input::Other => Action::Nothing,
        }
    }
}

// ---------------------------------------------------------------------------
// Running a query
// ---------------------------------------------------------------------------

/// What a query asks of the server.
#[derive(Debug, PartialEq)]
pub enum Request {
    /// The nearest records to a vector.
    Query { collection: String, request: QueryRequest, format: OutputFormat },
    /// Records of a collection, of which no more than the limit are shown.
    Get { collection: String, request: GetRequest, limit: Option<usize>, format: OutputFormat },
    /// The number of records of a collection.
    Count { collection: String },
    /// A new collection.
    Create { name: String },
}

/// The collection that a query means: `*` is the one in use.
pub open spec fn meant(s: ReplView, collection: Seq<char>) -> Seq<char> {
    if collection == "*"@ {
        match s.collection {
            Some(c) => c,
            None => "default"@,
        }
    } else {
        collection
    }
}

/// The format of the results of a query.
pub open spec fn shown_as(s: ReplView, vertical: bool) -> OutputFormat {
    if vertical || s.vertical {
        OutputFormat::Vertical
    } else {
        s.format
    }
}

/// Optional texts as mathematical values.
pub open spec fn views_opt(v: Option<Vec<String>>) -> Option<Seq<Seq<char>>> {
    match v {
        Some(v) => Some(text::views(v@)),
        None => None,
    }
}

/// Whether a request is what a query asks for.
pub open spec fn asks(s: ReplView, q: QueryView, r: Request) -> bool {
    match q {
        QueryView::Select { collection, nearest_to, where_filter, limit, vertical, .. } => match nearest_to {
            Some(v) => r matches Request::Query { collection: c, request, format } && c@ == meant(
                s,
                collection,
            ) && request.query_embeddings@.len() == 1 && request.query_embeddings@[0]@ == v && (
            request.n_results matches Some(n) && n == (match limit {
                Some(l) => l,
                None => 10,
            })) && sql::json_opt(request.where_filter) == where_filter && views_opt(request.included)
                == Some(seq!["metadatas"@, "documents"@, "distances"@]) && format == shown_as(
                s,
                vertical,
            ),
            None => r matches Request::Get { collection: c, request, limit: l, format } && c@ == meant(
                s,
                collection,
            ) && limit == (match l {
                Some(n) => Some(n as nat),
                None => None,
            }) && request.ids is None && sql::json_opt(request.where_filter) == where_filter
                && views_opt(request.included) == Some(seq!["metadatas"@, "documents"@]) && format
                == shown_as(s, vertical),
        },
        QueryView::Count { collection } => r matches Request::Count { collection: c } && c@ == meant(
            s,
            collection,
        ),
        QueryView::CreateCollection { name } => r matches Request::Create { name: n } && n@ == name,
    }
}

impl Repl {
    fn meant_collection(&self, collection: String) -> (r: String)
        ensures
            r@ == meant(self@, collection@),
    {
        if same_text(collection.as_str(), "*") {
            match &self.collection {
                Some(c) => c.clone(),
                None => "default".to_owned(),
            }
        } else {
            collection
        }
    }

    /// What a query asks of the server.
    pub fn request_for(&self, query: ParsedQuery) -> (r: Request)
        ensures
            asks(self@, query@, r),
    {
        match query {
            ParsedQuery::Select { collection, fields, nearest_to, where_filter, limit, vertical } => {
                let collection: String = self.meant_collection(collection);
                let format: OutputFormat = if vertical || self.vertical {
                    OutputFormat::Vertical
                } else {
                    self.format
                };
                let mut included: Vec<String> = Vec::new();
                included.push("metadatas".to_owned());
                included.push("documents".to_owned());
                match nearest_to {
                    Some(v) => {
                        included.push("distances".to_owned());
                        assert(text::views(included@) =~= seq![
                            "metadatas"@,
                            "documents"@,
                            "distances"@,
                        ]);
                        let mut queries: Vec<Embedding> = Vec::new();
                        queries.push(v);
                        let n: usize = match limit {
                            Some(l) => l,
                            None => 10,
                        };
                        Request::Query {
                            collection,
                            request: QueryRequest {
                                query_embeddings: queries,
                                n_results: Some(n),
                                where_filter,
                                included: Some(included),
                            },
                            format,
                        }
                    },
                    None => {
                        assert(text::views(included@) =~= seq!["metadatas"@, "documents"@]);
                        Request::Get {
                            collection,
                            request: GetRequest { ids: None, where_filter, included: Some(included) },
                            limit,
                            format,
                        }
                    },
                }
            },
            ParsedQuery::Count { collection } => Request::Count {
                collection: self.meant_collection(collection),
            },
            ParsedQuery::CreateCollection { name } => Request::Create { name },
        }
    }

    /// The text that shows the outcome of a query, with the seconds that it took
    /// where timing is on.
    pub fn shown(&self, output: &str, elapsed: &str) -> (r: String)
        ensures
            r@ == output@ + display::timing_text(
                "\n("@,
                if self@.timing {
                    Some(elapsed)
                } else {
                    None
                },
                "s)\n"@,
            ),
    {
        let mut s: String = output.to_owned();
        let t: Option<&str> = if self.timing {
            Some(elapsed)
        } else {
            None
        };
        s.append(render_timing("\n(", t, "s)\n").as_str());
        s
    }
}

/// Number of rows that are shown of a number of rows.
pub open spec fn rows_shown(rows: nat, limit: Option<usize>) -> nat {
    match limit {
        Some(n) => if n < rows {
            n as nat
        } else {
            rows
        },
        None => rows,
    }
}

/// The first rows, no more than the limit.
fn first_rows<T>(rows: Vec<T>, limit: Option<usize>) -> (r: Vec<T>)
    ensures
        r@ == rows@.take(rows_shown(rows@.len(), limit) as int),
{
    let mut rows = rows;
    let ghost all = rows@;
    match limit {
        Some(n) => {
            if n < rows.len() {
                rows.truncate(n);
            }
        },
        None => {},
    }
    assert(rows@ =~= all.take(rows_shown(all.len(), limit) as int));
    rows
}

/// Records as results: one list, without distances, and no more rows than the
/// limit.
pub fn as_results(
    ids: Vec<String>,
    metadatas: Option<Vec<Option<serde_json::Value>>>,
    documents: Option<Vec<Option<String>>>,
    limit: Option<usize>,
) -> (r: QueryResult)
    ensures
        r.ids@.len() == 1,
        r.ids@[0]@ == ids@.take(rows_shown(ids@.len(), limit) as int),
        r.distances is None,
        match (r.metadatas, metadatas) {
            (Some(m), Some(given)) => m@.len() == 1 && m@[0]@ == given@.take(
                rows_shown(given@.len(), limit) as int,
            ),
            (None, None) => true,
            _ => false,
        },
        match (r.documents, documents) {
            (Some(d), Some(given)) => d@.len() == 1 && d@[0]@ == given@.take(
                rows_shown(given@.len(), limit) as int,
            ),
            (None, None) => true,
            _ => false,
        },
{
    let mut all: Vec<Vec<String>> = Vec::new();
    all.push(first_rows(ids, limit));
    let metadatas: Option<Vec<Vec<Option<serde_json::Value>>>> = match metadatas {
        Some(m) => {
            let mut v: Vec<Vec<Option<serde_json::Value>>> = Vec::new();
            v.push(first_rows(m, limit));
            Some(v)
        },
        None => None,
    };
    let documents: Option<Vec<Vec<Option<String>>>> = match documents {
        Some(d) => {
            let mut v: Vec<Vec<Option<String>>> = Vec::new();
            v.push(first_rows(d, limit));
            Some(v)
        },
        None => None,
    };
    QueryResult { ids: all, distances: None, metadatas, documents }
}

/// Shows records that were read. Where there are none, this is said.
pub fn format_records(r: &QueryResult, format: OutputFormat, as_json: &str) -> (out: Option<String>)
    ensures
        if r.rows().len() == 0 {
            out matches Some(s) && s@ == "Empty set"@
        } else {
            display::formatted(*r, format, as_json@, out)
        },
{
    if r.row_count() == 0 {
        Some("Empty set".to_owned())
    } else {
        format_result(r, format, as_json)
    }
}

// ---------------------------------------------------------------------------
// Collections
// ---------------------------------------------------------------------------

/// The first bytes of an id, if a character ends there.
pub open spec fn short_id(id: Seq<char>) -> Option<Seq<char>> {
    chars::slice(
        id,
        0,
        if chars::bytes(id) < 8 {
            chars::bytes(id)
        } else {
            8
        },
    )
}

fn shorten_id(id: &str) -> (r: Option<String>)
    ensures
        match r {
            Some(s) => short_id(id@) == Some(s@),
            None => short_id(id@) is None,
        },
{
    let c: Vec<char> = to_chars(id);
    let n: u128 = byte_count(&c);
    let end: u128 = if n < 8 {
        n
    } else {
        8
    };
    match cut(&c, 0, end) {
        Some(p) => Some(from_chars(p.as_slice())),
        None => None,
    }
}

/// A dimension, or a word for one that is not known.
pub open spec fn dimension_text(d: Option<usize>, unknown: Seq<char>) -> Seq<char> {
    match d {
        Some(d) => text::decimal_text(d as nat),
        None => unknown,
    }
}

fn render_dimension(d: Option<usize>, unknown: &str) -> (r: String)
    ensures
        r@ == dimension_text(d, unknown@),
{
    match d {
        Some(d) => decimal(d as u64),
        None => unknown.to_owned(),
    }
}

/// A line of the list of collections.
pub open spec fn list_line(name: Seq<char>, dimension: Seq<char>, id: Seq<char>) -> Seq<char> {
    display::padded(name, 30) + " "@ + display::padded(dimension, 10) + " "@ + display::padded(id, 10)
        + "\n"@
}

fn append_list_line(s: &mut String, name: &str, dimension: &str, id: &str)
    ensures
        final(s)@ == old(s)@ + list_line(name@, dimension@, id@),
{
    append_padded(s, name, 30);
    s.append(" ");
    append_padded(s, dimension, 10);
    s.append(" ");
    append_padded(s, id, 10);
    s.append("\n");
    assert(s@ =~= old(s)@ + list_line(name@, dimension@, id@));
}

/// The first lines of the list of collections.
pub open spec fn list_lines(c: Seq<Collection>, n: nat) -> Seq<char>
    decreases n,
{
    if n == 0 {
        Seq::empty()
    } else {
        list_lines(c, (n - 1) as nat) + list_line(
            c[n - 1].name@,
            dimension_text(c[n - 1].dimension, "-"@),
            short_id(c[n - 1].id@)->0,
        )
    }
}

/// The list of collections. Nothing where an id cannot be cut.
pub open spec fn list_of(c: Seq<Collection>) -> Option<Seq<char>> {
    if c.len() == 0 {
        Some("No collections found.\n"@)
    } else if exists|i: int| 0 <= i < c.len() && short_id((#[trigger] c[i]).id@) is None {
        None
    } else {
        Some(
            list_line("Name"@, "Dimension"@, "ID"@) + display::repeated('-', 55) + "\n"@ + list_lines(
                c,
                c.len(),
            ) + "\n"@ + text::decimal_text(c.len()) + " collections\n"@,
        )
    }
}

/// Shows the list of collections.
pub fn list_text(c: &Vec<Collection>) -> (r: Option<String>)
    ensures
        match r {
            Some(s) => list_of(c@) == Some(s@),
            None => list_of(c@) is None,
        },
{
    if c.len() == 0 {
        return Some("No collections found.\n".to_owned());
    }
    let mut s: String = String::new();
    append_list_line(&mut s, "Name", "Dimension", "ID");
    append_repeated(&mut s, '-', 55);
    s.append("\n");
    let ghost head = s@;
    assert(head =~= list_line("Name"@, "Dimension"@, "ID"@) + display::repeated('-', 55) + "\n"@);
    let mut i: usize = 0;
    assert(s@ =~= head + list_lines(c@, 0));
    while i < c.len()
        invariant
            i <= c.len(),
            c@.len() > 0,
            s@ == head + list_lines(c@, i as nat),
            forall|j: int| 0 <= j < i ==> short_id((#[trigger] c@[j]).id@) is Some,
        decreases c.len() - i,
    {
        match shorten_id(c[i].id.as_str()) {
            Some(id) => {
                append_list_line(
                    &mut s,
                    c[i].name.as_str(),
                    render_dimension(c[i].dimension, "-").as_str(),
                    id.as_str(),
                );
            },
            None => {
                assert(short_id(c@[i as int].id@) is None);
                return None;
            },
        }
        i += 1;
        assert(s@ =~= head + list_lines(c@, i as nat));
    }
    s.append("\n");
    s.append(decimal(c.len() as u64).as_str());
    s.append(" collections\n");
    Some(s)
}

/// The place of the first collection of a name.
pub fn find_collection(c: &Vec<Collection>, name: &str) -> (r: Option<usize>)
    ensures
        match r {
            Some(i) => i < c@.len() && c@[i as int].name@ == name@ && forall|j: int|
                0 <= j < i ==> (#[trigger] c@[j]).name@ != name@,
            None => forall|j: int| 0 <= j < c@.len() ==> (#[trigger] c@[j]).name@ != name@,
        },
{
    let mut i: usize = 0;
    while i < c.len()
        invariant
            i <= c.len(),
            forall|j: int| 0 <= j < i ==> (#[trigger] c@[j]).name@ != name@,
        decreases c.len() - i,
    {
        if same_text(c[i].name.as_str(), name) {
            return Some(i);
        }
        i += 1;
    }
    None
}

/// Describes a collection, with the number of its records where that is known.
pub fn describe_text(c: &Collection, count: Option<u64>) -> (r: String)
    ensures
        r@ == "Collection: "@ + c.name@ + "\nID: "@ + c.id@ + "\nDimension: "@ + dimension_text(
            c.dimension,
            "Not set"@,
        ) + "\n"@ + (match count {
            Some(n) => "Records: "@ + text::decimal_text(n as nat) + "\n"@,
            None => Seq::empty(),
        }),
{
    let mut s: String = "Collection: ".to_owned();
    s.append(c.name.as_str());
    s.append("\nID: ");
    s.append(c.id.as_str());
    s.append("\nDimension: ");
    s.append(render_dimension(c.dimension, "Not set").as_str());
    s.append("\n");
    let ghost head = s@;
    match count {
        Some(n) => {
            s.append("Records: ");
            s.append(decimal(n).as_str());
            s.append("\n");
            assert(s@ =~= head + ("Records: "@ + text::decimal_text(n as nat) + "\n"@));
        },
        None => {
            assert(s@ =~= head + Seq::<char>::empty());
        },
    }
    s
}

/// Tells of a new collection. Nothing where its id cannot be cut.
pub fn created_text(c: &Collection) -> (r: Option<String>)
    ensures
        match r {
            Some(s) => short_id(c.id@) is Some && s@ == "Collection '"@ + c.name@ + "' created (id: "@
                + short_id(c.id@)->0 + ")"@,
            None => short_id(c.id@) is None,
        },
{
    match shorten_id(c.id.as_str()) {
        Some(id) => {
            let mut s: String = "Collection '".to_owned();
            s.append(c.name.as_str());
            s.append("' created (id: ");
            s.append(id.as_str());
            s.append(")");
            Some(s)
        },
        None => None,
    }
}

/// Tells of a collection that was dropped.
pub fn dropped_text(name: &str) -> (r: String)
    ensures
        r@ == "Collection '"@ + name@ + "' dropped."@,
{
    glue("Collection '", name, "' dropped.")
}

/// What the interactive client can do.
pub const HELP: &'static str = "RekhaDB REPL Commands:\n  \\d, \\dt          List all collections\n  \\d <name>        Describe a collection\n  \\create <name>   Create a new collection\n  \\use <name>      Switch to a collection\n  \\drop <name>     Drop a collection\n  \\x               Toggle vertical output\n  \\format <fmt>    Set output format (table/json/csv/vertical)\n  \\pager           Toggle pager\n  \\timing          Toggle query timing\n  \\clear           Clear screen\n  \\help, \\h, ?     Show this help\n  \\quit, \\q        Exit\n\nSQL Queries:\n  CREATE COLLECTION <name>;\n  SELECT * FROM <collection> LIMIT 10;\n  SELECT * FROM <collection> NEAREST TO [0.1, 0.2, ...] LIMIT 5;\n  SELECT * FROM <collection> WHERE category = 'tech' LIMIT 10;\n  SELECT COUNT(*) FROM <collection>;\n  SELECT * FROM <collection> NEAREST TO [0.1, ...] VERTICAL;\n";

// ---------------------------------------------------------------------------
// Laws
// ---------------------------------------------------------------------------

/// A limit is the most rows that are shown, and rows are left out for nothing
/// else.
pub proof fn limits_bound_what_is_shown(rows: nat, limit: Option<usize>)
    ensures
        rows_shown(rows, limit) <= rows,
        limit matches Some(n) ==> rows_shown(rows, limit) <= n,
        rows_shown(rows, limit) == rows || (limit matches Some(n) && rows_shown(rows, limit) == n),
{
}

/// A query on `*` means the collection in use, and any other the one it names.
pub proof fn stars_mean_the_collection_in_use(s: ReplView, collection: Seq<char>)
    ensures
        collection != "*"@ ==> meant(s, collection) == collection,
        collection == "*"@ && s.collection is Some ==> Some(meant(s, collection)) == s.collection,
        collection == "*"@ && s.collection is None ==> meant(s, collection) == "default"@,
{
}

/// A search asks the server for what its query says: its vector, its filter, and
/// as many results as its limit; ten where it has none.
pub proof fn searches_ask_for_what_they_say(
    s: ReplView,
    collection: Seq<char>,
    fields: Seq<Seq<char>>,
    vector: Seq<u32>,
    filter: Option<JsonView>,
    limit: Option<nat>,
    vertical: bool,
    r: Request,
)
    requires
        asks(
            s,
            QueryView::Select {
                collection,
                fields,
                nearest_to: Some(vector),
                where_filter: filter,
                limit,
                vertical,
            },
            r,
        ),
    ensures
        r matches Request::Query { collection: c, request, format } && {
            &&& request.query_embeddings@.len() == 1 && request.query_embeddings@[0]@ == vector
            &&& request.n_results matches Some(n) && (limit matches Some(l) ==> n == l) && (limit is None
                ==> n == 10)
            &&& sql::json_opt(request.where_filter) == filter
            &&& c@ == meant(s, collection)
            &&& vertical || s.vertical ==> format == OutputFormat::Vertical
            &&& !vertical && !s.vertical ==> format == s.format
        },
{
}

/// A query without a vector asks for records, with its filter and its limit.
pub proof fn reads_ask_for_what_they_say(
    s: ReplView,
    collection: Seq<char>,
    fields: Seq<Seq<char>>,
    filter: Option<JsonView>,
    limit: Option<nat>,
    vertical: bool,
    r: Request,
)
    requires
        asks(
            s,
            QueryView::Select {
                collection,
                fields,
                nearest_to: None,
                where_filter: filter,
                limit,
                vertical,
            },
            r,
        ),
    ensures
        r matches Request::Get { collection: c, request, limit: l, format } && {
            &&& sql::json_opt(request.where_filter) == filter
            &&& c@ == meant(s, collection)
            &&& limit is None <==> l is None
            &&& limit matches Some(n) ==> (l matches Some(k) && k == n)
            &&& vertical || s.vertical ==> format == OutputFormat::Vertical
            &&& !vertical && !s.vertical ==> format == s.format
        },
{
}

/// Counting and creating are asked for of the collection that the query names.
pub proof fn other_queries_ask_for_what_they_say(s: ReplView, name: Seq<char>, r: Request)
    ensures
        asks(s, QueryView::Count { collection: name }, r) ==> (r matches Request::Count { collection: c } && c@
            == meant(s, name)),
        asks(s, QueryView::CreateCollection { name }, r) ==> (r matches Request::Create { name: n } && n@
            == name),
{
}

/// A command changes the setting that it names, and no other; twice the same
/// switch is none.
pub proof fn commands_change_what_they_name(
    s: ReplView,
    line: Seq<char>,
    c: CommandView,
    after: ReplView,
    action: ActionView,
)
    requires
        obeyed(s, line, c, after, action),
    ensures
        after.vertical != s.vertical <==> c is ToggleVertical,
        after.pager != s.pager <==> c is TogglePager,
        after.timing != s.timing <==> c is ToggleTiming,
        !(c is SetFormat) ==> after.format == s.format,
        !(c is UseCollection) ==> after.collection == s.collection,
        c matches CommandView::UseCollection(name) ==> after.collection == Some(name),
        c matches CommandView::SetFormat(name) ==> (names_format(name) ==> after.format.label() == name) && (
        !names_format(name) ==> after == s && action is Complain),
        c is Quit <==> action is Leave,
        c matches CommandView::DropCollection(name) ==> action == ActionView::Drop(name),
        !(c is DropCollection) ==> !(action is Drop),
        c matches CommandView::CreateCollection(name) ==> action == ActionView::Create(name),
        c matches CommandView::DescribeCollection(name) ==> action == ActionView::Describe(name),
        c is ListCollections <==> action is ListCollections,
        c is Help <==> action is Help,
        c is Clear <==> action is Clear,
        c is Unknown ==> action is Complain,
{
}

/// A line that is no command is a query, changes no setting, and is run where it
/// can be read.
pub proof fn other_lines_are_queries(
    s: ReplView,
    input: Seq<char>,
    n: ReadingsView,
    after: ReplView,
    action: ActionView,
)
    requires
        stepped(s, input, n, after, action),
    ensures
        chars::trimmed(input).len() == 0 ==> after == s && action is Nothing,
        ({
            let t = chars::trimmed(input);
            let q = sql::query_of(sql::bare(t), sql::uppercase(sql::bare(t)), n);
            t.len() > 0 && !chars::begins(t, "\\"@) && t != "exit"@ && t != "quit"@ && t != "?"@ ==> {
                &&& after == s
                &&& q matches Ok(v) ==> action == ActionView::Run(v)
                &&& q is Err ==> !(action is Run)
            }
        }),
        action is Run ==> after == s,
{
}

/// A result is shown with a value per line where the query or the session asks
/// for it, else in the session's format.
pub proof fn forms_follow_the_session(s: ReplView, vertical: bool)
    ensures
        vertical || s.vertical ==> shown_as(s, vertical) is Vertical,
        !vertical && !s.vertical ==> shown_as(s, vertical) == s.format,
{
}

/// Of an id the first eight characters are listed, where every character is one
/// byte long; a shorter id is listed whole.
pub proof fn ids_are_listed_short(id: Seq<char>)
    requires
        forall|k: int| 0 <= k < id.len() ==> (#[trigger] id[k] as int) < 0x80,
    ensures
        id.len() >= 8 ==> short_id(id) == Some(id.take(8)),
        id.len() < 8 ==> short_id(id) == Some(id),
{
    chars::plain_texts_are_cut_by_characters(id, 0, if id.len() < 8 {
        id.len() as int
    } else {
        8
    });
    assert(id.subrange(0, id.len() as int) =~= id);
    if id.len() >= 8 {
        assert(id.subrange(0, 8) =~= id.take(8));
    }
}

/// Every collection has its own line, behind those before it, with its name, its
/// dimension and the start of its id.
pub proof fn collections_are_listed_in_order(c: Seq<Collection>, dimension: Seq<char>, i: int, n: nat)
    requires
        0 <= i < n,
        c[i].dimension matches Some(d) ==> dimension == text::decimal_text(d as nat),
        c[i].dimension is None ==> dimension == "-"@,
    ensures
        exists|rest: Seq<char>| #[trigger] (list_lines(c, i as nat) + list_line(
            c[i].name@,
            dimension,
            short_id(c[i].id@)->0,
        ) + rest) == list_lines(c, n),
        list_lines(c, 0).len() == 0,
    decreases n,
{
    let line = list_line(c[i].name@, dimension, short_id(c[i].id@)->0);
    if n == i + 1 {
        assert(list_lines(c, i as nat) + line + Seq::<char>::empty() =~= list_lines(c, n));
    } else {
        collections_are_listed_in_order(c, dimension, i, (n - 1) as nat);
        let rest = choose|rest: Seq<char>|
            #[trigger] (list_lines(c, i as nat) + line + rest) == list_lines(c, (n - 1) as nat);
        let last = list_line(c[n - 1].name@, dimension_text(c[n - 1].dimension, "-"@), short_id(c[n - 1].id@)->0);
        assert(list_lines(c, i as nat) + line + (rest + last) =~= list_lines(c, n));
    }
}

} // verus!
