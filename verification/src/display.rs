//! How the interactive client shows results.

use vstd::prelude::*;
use vstd::string::*;

use crate::chars;
use crate::chars::{byte_count, cut, split};
use crate::json_text;
use crate::json_text::{write_pretty, write_value, RawView};
use crate::text;
use crate::text::{decimal, from_chars, glue, same_text, to_chars};

verus! {

/// Results as the server sends them.
#[derive(Debug)]
pub struct QueryResult {
    pub ids: Vec<Vec<String>>,
    /// The distances with four decimals.
    pub distances: Option<Vec<Vec<String>>>,
    pub metadatas: Option<Vec<Vec<Option<serde_json::Value>>>>,
    pub documents: Option<Vec<Vec<Option<String>>>>,
}

/// How results are shown.
#[derive(Debug, Clone, Copy, PartialEq, Eq, Structural)]
pub enum OutputFormat {
    Table,
    Json,
    Csv,
    Vertical,
}

impl Default for OutputFormat {
    fn default() -> (r: Self)
        ensures
            r == OutputFormat::Table,
    {
        OutputFormat::Table
    }
}

impl OutputFormat {
    /// The name of the format.
    pub open spec fn label(self) -> Seq<char> {
        match self {
            OutputFormat::Table => "table"@,
            OutputFormat::Json => "json"@,
            OutputFormat::Csv => "csv"@,
            OutputFormat::Vertical => "vertical"@,
        }
    }

    /// The name of the format.
    pub fn name(&self) -> (r: &'static str)
        ensures
            r@ == self.label(),
    {
        match self {
            OutputFormat::Table => "table",
            OutputFormat::Json => "json",
            OutputFormat::Csv => "csv",
            OutputFormat::Vertical => "vertical",
        }
    }

    /// The format of a name.
    pub fn named(name: &str) -> (r: Option<OutputFormat>)
        ensures
            match r {
                Some(f) => f.label() == name@,
                None => forall|f: OutputFormat| #[trigger] f.label() != name@,
            },
    {
        if same_text(name, "table") {
            Some(OutputFormat::Table)
        } else if same_text(name, "json") {
            Some(OutputFormat::Json)
        } else if same_text(name, "csv") {
            Some(OutputFormat::Csv)
        } else if same_text(name, "vertical") {
            Some(OutputFormat::Vertical)
        } else {
            None
        }
    }
}

/// The text of a time in brackets, if there is one.
pub open spec fn timing_text(before: Seq<char>, t: Option<&str>, after: Seq<char>) -> Seq<char> {
    match t {
        Some(t) => before + t@ + after,
        None => Seq::empty(),
    }
}

/// The text of a time in brackets, if there is one.
pub fn render_timing(before: &str, t: Option<&str>, after: &str) -> (r: String)
    ensures
        r@ == timing_text(before@, t, after@),
{
    match t {
        Some(t) => glue(before, t, after),
        None => String::new(),
    }
}

/// Shows a number of records, and the seconds that it took where they are known.
pub fn format_count(count: u64, timing: Option<&str>) -> (r: String)
    ensures
        r@ == text::decimal_text(count as nat) + " rows in set"@ + timing_text(" ("@, timing, "s)"@),
{
    let mut s: String = decimal(count);
    s.append(" rows in set");
    s.append(render_timing(" (", timing, "s)").as_str());
    s
}

// ---------------------------------------------------------------------------
// The parts of a result
// ---------------------------------------------------------------------------

impl QueryResult {
    /// The ids of the first list.
    pub open spec fn rows(self) -> Seq<String> {
        if self.ids@.len() == 0 {
            Seq::empty()
        } else {
            self.ids@[0]@
        }
    }

    /// The distance of a row.
    pub open spec fn distance_at(self, i: int) -> Option<Seq<char>> {
        match self.distances {
            Some(d) => if d@.len() > 0 && 0 <= i < d@[0]@.len() {
                Some(d@[0]@[i]@)
            } else {
                None
            },
            None => None,
        }
    }

    /// The document of a row.
    pub open spec fn document_at(self, i: int) -> Option<Seq<char>> {
        match self.documents {
            Some(d) => if d@.len() > 0 && 0 <= i < d@[0]@.len() {
                match d@[0]@[i] {
                    Some(t) => Some(t@),
                    None => None,
                }
            } else {
                None
            },
            None => None,
        }
    }

    /// The metadata of a row.
    pub open spec fn metadata_at(self, i: int) -> Option<RawView> {
        match self.metadatas {
            Some(m) => if m@.len() > 0 && 0 <= i < m@[0]@.len() {
                match m@[0]@[i] {
                    Some(v) => Some(json_text::value_held(v)),
                    None => None,
                }
            } else {
                None
            },
            None => None,
        }
    }

    /// Number of rows.
    pub fn row_count(&self) -> (n: usize)
        ensures
            n == self.rows().len(),
    {
        if self.ids.len() == 0 {
            0
        } else {
            self.ids[0].len()
        }
    }

    fn distance(&self, i: usize) -> (r: Option<&String>)
        ensures
            match r {
                Some(t) => self.distance_at(i as int) == Some(t@),
                None => self.distance_at(i as int) is None,
            },
    {
        match &self.distances {
            Some(d) => if d.len() > 0 && i < d[0].len() {
                Some(&d[0][i])
            } else {
                None
            },
            None => None,
        }
    }

    fn document(&self, i: usize) -> (r: Option<&String>)
        ensures
            match r {
                Some(t) => self.document_at(i as int) == Some(t@),
                None => self.document_at(i as int) is None,
            },
    {
        match &self.documents {
            Some(d) => if d.len() > 0 && i < d[0].len() {
                match &d[0][i] {
                    Some(t) => Some(t),
                    None => None,
                }
            } else {
                None
            },
            None => None,
        }
    }

    fn metadata(&self, i: usize) -> (r: Option<&serde_json::Value>)
        ensures
            match r {
                Some(v) => self.metadata_at(i as int) == Some(json_text::value_held(*v)),
                None => self.metadata_at(i as int) is None,
            },
    {
        match &self.metadatas {
            Some(m) => if m.len() > 0 && i < m[0].len() {
                match &m[0][i] {
                    Some(v) => Some(v),
                    None => None,
                }
            } else {
                None
            },
            None => None,
        }
    }
}

// ---------------------------------------------------------------------------
// Pieces of text
// ---------------------------------------------------------------------------

/// A character over and over.
pub open spec fn repeated(c: char, n: nat) -> Seq<char> {
    Seq::new(n, |i: int| c)
}

/// Appends a character over and over.
pub(crate) fn append_repeated(s: &mut String, c: char, n: u128)
    ensures
        final(s)@ == old(s)@ + repeated(c, n as nat),
{
    let mut i: u128 = 0;
    assert(s@ =~= old(s)@ + repeated(c, 0));
    while i < n
        invariant
            i <= n,
            s@ == old(s)@ + repeated(c, i as nat),
        decreases n - i,
    {
        s.push(c);
        i += 1;
        assert(s@ =~= old(s)@ + repeated(c, i as nat));
    }
}

/// A text with spaces behind it up to a number of characters.
pub open spec fn padded(t: Seq<char>, w: nat) -> Seq<char> {
    if t.len() < w {
        t + repeated(' ', (w - t.len()) as nat)
    } else {
        t
    }
}

/// Appends a text, and spaces up to a width.
pub(crate) fn append_padded(s: &mut String, t: &str, w: u128)
    ensures
        final(s)@ == old(s)@ + padded(t@, w as nat),
{
    let n: usize = t.unicode_len();
    s.append(t);
    if (n as u128) < w {
        let ghost before = s@;
        append_repeated(s, ' ', w - n as u128);
        assert(s@ =~= old(s)@ + padded(t@, w as nat));
    }
}

/// A cell of a table.
pub open spec fn cell(t: Seq<char>, w: nat) -> Seq<char> {
    " "@ + padded(t, w) + " "@
}

fn make_cell(t: &str, w: u128) -> (r: String)
    ensures
        r@ == cell(t@, w as nat),
{
    let mut s: String = " ".to_owned();
    append_padded(&mut s, t, w);
    s.append(" ");
    s
}

/// Texts with a text between them.
pub open spec fn joined(parts: Seq<Seq<char>>, between: Seq<char>) -> Seq<char>
    decreases parts.len(),
{
    if parts.len() == 0 {
        Seq::empty()
    } else if parts.len() == 1 {
        parts[0]
    } else {
        joined(parts.drop_last(), between) + between + parts.last()
    }
}

/// Puts a text between texts.
pub fn join(parts: &Vec<String>, between: &str) -> (r: String)
    ensures
        r@ == joined(text::views(parts@), between@),
{
    let ghost all = text::views(parts@);
    let mut s: String = String::new();
    let mut i: usize = 0;
    assert(all.take(0) =~= Seq::<Seq<char>>::empty());
    while i < parts.len()
        invariant
            i <= parts.len(),
            all == text::views(parts@),
            s@ == joined(all.take(i as int), between@),
        decreases parts.len() - i,
    {
        let ghost before = s@;
        proof {
            assert(all.take(i + 1).drop_last() =~= all.take(i as int));
            assert(all.take(i + 1).last() == all[i as int]);
            if i == 0 {
                assert(all.take(1)[0] == all[0]);
                assert(Seq::<char>::empty() + all[0] =~= all[0]);
            }
        }
        if i > 0 {
            s.append(between);
        }
        s.append(parts[i].as_str());
        i += 1;
    }
    assert(all.take(all.len() as int) =~= all);
    s
}

/// A text of at most 40 bytes: a longer one is cut there, if a character ends
/// there.
pub open spec fn short(t: Seq<char>) -> Option<Seq<char>> {
    if chars::bytes(t) > 40 {
        chars::slice(t, 0, 40)
    } else {
        Some(t)
    }
}

fn shorten(t: &str) -> (r: Option<String>)
    ensures
        match r {
            Some(s) => short(t@) == Some(s@),
            None => short(t@) is None,
        },
{
    let c: Vec<char> = to_chars(t);
    if byte_count(&c) > 40 {
        match cut(&c, 0, 40) {
            Some(p) => Some(from_chars(p.as_slice())),
            None => None,
        }
    } else {
        Some(t.to_owned())
    }
}

/// A text with each quotation mark twice.
pub open spec fn doubled(t: Seq<char>) -> Seq<char>
    decreases t.len(),
{
    if t.len() == 0 {
        Seq::empty()
    } else if t.last() == '"' {
        doubled(t.drop_last()).push('"').push('"')
    } else {
        doubled(t.drop_last()).push(t.last())
    }
}

fn append_doubled(s: &mut String, t: &str)
    ensures
        final(s)@ == old(s)@ + doubled(t@),
{
    let c: Vec<char> = to_chars(t);
    let mut i: usize = 0;
    assert(c@.take(0) =~= Seq::<char>::empty());
    assert(s@ =~= old(s)@ + doubled(c@.take(0)));
    while i < c.len()
        invariant
            i <= c.len(),
            s@ == old(s)@ + doubled(c@.take(i as int)),
        decreases c.len() - i,
    {
        let ghost before = s@;
        let ghost done = doubled(c@.take(i as int));
        proof {
            assert(c@.take(i + 1).drop_last() =~= c@.take(i as int));
            assert(c@.take(i + 1).last() == c@[i as int]);
        }
        s.push(c[i]);
        if c[i] == '"' {
            s.push('"');
        }
        i += 1;
        assert(s@ =~= old(s)@ + doubled(c@.take(i as int)));
    }
    assert(c@.take(c@.len() as int) =~= c@);
}

// ---------------------------------------------------------------------------
// Columns
// ---------------------------------------------------------------------------

/// The names of the columns of a result.
pub open spec fn headers(r: QueryResult) -> Seq<Seq<char>> {
    let a = seq!["id"@];
    let b = if r.distances is Some {
        a.push("distance"@)
    } else {
        a
    };
    let c = if r.documents is Some {
        b.push("document"@)
    } else {
        b
    };
    if r.metadatas is Some {
        c.push("metadata"@)
    } else {
        c
    }
}

fn push_text(v: &mut Vec<String>, t: String)
    ensures
        text::views(final(v)@) == text::views(old(v)@).push(t@),
{
    let ghost before = text::views(v@);
    let ghost new = t@;
    v.push(t);
    assert(text::views(v@) =~= before.push(new));
}

fn make_headers(r: &QueryResult) -> (h: Vec<String>)
    ensures
        text::views(h@) == headers(*r),
{
    let mut h: Vec<String> = Vec::new();
    assert(text::views(h@) =~= Seq::<Seq<char>>::empty());
    push_text(&mut h, "id".to_owned());
    assert(text::views(h@) =~= seq!["id"@]);
    if r.distances.is_some() {
        push_text(&mut h, "distance".to_owned());
    }
    if r.documents.is_some() {
        push_text(&mut h, "document".to_owned());
    }
    if r.metadatas.is_some() {
        push_text(&mut h, "metadata".to_owned());
    }
    h
}

// ---------------------------------------------------------------------------
// Comma-separated values
// ---------------------------------------------------------------------------

/// A row of comma-separated values. What a row lacks is left out.
pub open spec fn csv_row(r: QueryResult, i: int) -> Seq<char> {
    let id = r.rows()[i]@;
    let distance = match r.distance_at(i) {
        Some(d) => ","@ + d,
        None => Seq::empty(),
    };
    let document = match r.document_at(i) {
        Some(t) => ",\""@ + doubled(t) + "\""@,
        None => Seq::empty(),
    };
    let metadata = match r.metadata_at(i) {
        Some(v) => ",\""@ + doubled(json_text::json_text(v)) + "\""@,
        None => Seq::empty(),
    };
    id + distance + document + metadata + "\n"@
}

/// The first rows of comma-separated values.
pub open spec fn csv_rows(r: QueryResult, n: nat) -> Seq<char>
    decreases n,
{
    if n == 0 {
        Seq::empty()
    } else {
        csv_rows(r, (n - 1) as nat) + csv_row(r, n - 1)
    }
}

/// A result as comma-separated values.
pub open spec fn csv_of(r: QueryResult) -> Seq<char> {
    if r.rows().len() == 0 {
        "Empty set"@
    } else {
        joined(headers(r), ","@) + "\n"@ + csv_rows(r, r.rows().len())
    }
}

fn append_csv_row(s: &mut String, r: &QueryResult, i: usize)
    requires
        i < r.rows().len(),
    ensures
        final(s)@ == old(s)@ + csv_row(*r, i as int),
{
    s.append(r.ids[0][i].as_str());
    let ghost a = r.rows()[i as int]@;
    assert(s@ =~= old(s)@ + a);
    let ghost mut b = Seq::<char>::empty();
    match r.distance(i) {
        Some(d) => {
            s.append(",");
            s.append(d.as_str());
            proof {
                b = ","@ + d@;
            }
        },
        None => {},
    }
    assert(s@ =~= old(s)@ + (a + b));
    let ghost mut c = Seq::<char>::empty();
    match r.document(i) {
        Some(t) => {
            s.append(",\"");
            append_doubled(s, t.as_str());
            s.append("\"");
            proof {
                c = ",\""@ + doubled(t@) + "\""@;
            }
        },
        None => {},
    }
    assert(s@ =~= old(s)@ + (a + b + c));
    let ghost mut d = Seq::<char>::empty();
    match r.metadata(i) {
        Some(v) => {
            s.append(",\"");
            append_doubled(s, write_value(v).as_str());
            s.append("\"");
            proof {
                d = ",\""@ + doubled(json_text::json_text(json_text::value_held(*v))) + "\""@;
            }
        },
        None => {},
    }
    assert(s@ =~= old(s)@ + (a + b + c + d));
    s.append("\n");
    assert(s@ =~= old(s)@ + (a + b + c + d + "\n"@));
}

/// Shows a result as comma-separated values.
pub fn format_csv(r: &QueryResult) -> (out: String)
    ensures
        out@ == csv_of(*r),
{
    let n: usize = r.row_count();
    if n == 0 {
        return "Empty set".to_owned();
    }
    let mut s: String = join(&make_headers(r), ",");
    s.append("\n");
    let ghost head = s@;
    let mut i: usize = 0;
    assert(s@ =~= head + csv_rows(*r, 0));
    while i < n
        invariant
            i <= n,
            n == r.rows().len(),
            s@ == head + csv_rows(*r, i as nat),
        decreases n - i,
    {
        append_csv_row(&mut s, r, i);
        i += 1;
        assert(s@ =~= head + csv_rows(*r, i as nat));
    }
    s
}

// ---------------------------------------------------------------------------
// One value per line
// ---------------------------------------------------------------------------

/// A name with its value on a line.
pub open spec fn named_line(name: Seq<char>, value: Seq<char>) -> Seq<char> {
    padded(name, 12) + " | "@ + value + "\n"@
}

fn append_named_line(s: &mut String, name: &str, value: &str)
    ensures
        final(s)@ == old(s)@ + named_line(name@, value@),
{
    append_padded(s, name, 12);
    s.append(" | ");
    s.append(value);
    s.append("\n");
    assert(s@ =~= old(s)@ + named_line(name@, value@));
}

/// A line without the carriage return at its end.
pub open spec fn without_return(t: Seq<char>) -> Seq<char> {
    if t.len() > 0 && t.last() == '\r' {
        t.drop_last()
    } else {
        t
    }
}

/// The lines of a text: what stands before each line feed, without a carriage
/// return, and what is left behind the last.
pub open spec fn lines_of(t: Seq<char>) -> Seq<Seq<char>> {
    let p = chars::pieces(t, '\n');
    let full = Seq::new((p.len() - 1) as nat, |i: int| without_return(p[i]));
    if p.last().len() == 0 {
        full
    } else {
        full.push(p.last())
    }
}

/// The first lines of metadata, the first of them with a name.
pub open spec fn metadata_lines(lines: Seq<Seq<char>>, n: nat) -> Seq<char>
    decreases n,
{
    if n == 0 {
        Seq::empty()
    } else {
        metadata_lines(lines, (n - 1) as nat) + named_line(
            if n == 1 {
                "metadata"@
            } else {
                ""@
            },
            lines[n - 1],
        )
    }
}

/// A row with a value per line. What a row lacks is left out.
pub open spec fn vertical_row(r: QueryResult, i: int) -> Seq<char> {
    let head = "-[ RESULT "@ + text::decimal_text((i + 1) as nat) + " ]"@ + repeated('-', 50) + "\n"@;
    let id = named_line("id"@, r.rows()[i]@);
    let distance = match r.distance_at(i) {
        Some(d) => named_line("distance"@, d),
        None => Seq::empty(),
    };
    let document = match r.document_at(i) {
        Some(t) => named_line("document"@, t),
        None => Seq::empty(),
    };
    let metadata = match r.metadata_at(i) {
        Some(v) => {
            let lines = lines_of(json_text::pretty_text(v));
            metadata_lines(lines, lines.len())
        },
        None => Seq::empty(),
    };
    head + id + distance + document + metadata + "\n"@
}

/// The first rows with a value per line.
pub open spec fn vertical_rows(r: QueryResult, n: nat) -> Seq<char>
    decreases n,
{
    if n == 0 {
        Seq::empty()
    } else {
        vertical_rows(r, (n - 1) as nat) + vertical_row(r, n - 1)
    }
}

/// A result with a value per line.
pub open spec fn vertical_of(r: QueryResult) -> Seq<char> {
    if r.rows().len() == 0 {
        "Empty set"@
    } else {
        vertical_rows(r, r.rows().len())
    }
}

fn split_lines(t: &str) -> (r: Vec<String>)
    ensures
        text::views(r@) == lines_of(t@),
{
    let p: Vec<Vec<char>> = split(&to_chars(t), '\n');
    let ghost all = chars::pieces(t@, '\n');
    let mut out: Vec<String> = Vec::new();
    let mut i: usize = 0;
    while i < p.len() - 1
        invariant
            i <= p.len() - 1,
            p.len() >= 1,
            all == chars::char_views(p@),
            out@.len() == i,
            forall|j: int| 0 <= j < i ==> (#[trigger] out@[j])@ == without_return(all[j]),
        decreases p.len() - i,
    {
        let line: &Vec<char> = &p[i];
        assert(all[i as int] == line@);
        let n: usize = line.len();
        if n > 0 && line[n - 1] == '\r' {
            let kept: Vec<char> = chars::part(line, 0, n - 1);
            assert(kept@ =~= line@.drop_last());
            out.push(from_chars(kept.as_slice()));
        } else {
            out.push(from_chars(line.as_slice()));
        }
        i += 1;
    }
    let last: &Vec<char> = &p[p.len() - 1];
    proof {
        assert(all.len() == p@.len());
        assert(all.last() == last@);
        let full = Seq::new((all.len() - 1) as nat, |i: int| without_return(all[i]));
        assert(text::views(out@) =~= full);
    }
    if last.len() > 0 {
        push_text(&mut out, from_chars(last.as_slice()));
    }
    out
}

fn append_metadata_lines(s: &mut String, lines: &Vec<String>)
    ensures
        final(s)@ == old(s)@ + metadata_lines(text::views(lines@), lines@.len()),
{
    let ghost all = text::views(lines@);
    let mut i: usize = 0;
    assert(s@ =~= old(s)@ + metadata_lines(all, 0));
    while i < lines.len()
        invariant
            i <= lines.len(),
            all == text::views(lines@),
            s@ == old(s)@ + metadata_lines(all, i as nat),
        decreases lines.len() - i,
    {
        let name: &str = if i == 0 {
            "metadata"
        } else {
            ""
        };
        append_named_line(s, name, lines[i].as_str());
        i += 1;
        assert(s@ =~= old(s)@ + metadata_lines(all, i as nat));
    }
}

fn append_vertical_row(s: &mut String, r: &QueryResult, i: usize)
    requires
        i < r.rows().len(),
    ensures
        final(s)@ == old(s)@ + vertical_row(*r, i as int),
{
    let n: usize = r.ids[0].len();
    assert(i < n);
    s.append("-[ RESULT ");
    s.append(decimal(i as u64 + 1).as_str());
    s.append(" ]");
    append_repeated(s, '-', 50);
    s.append("\n");
    let ghost a = "-[ RESULT "@ + text::decimal_text((i + 1) as nat) + " ]"@ + repeated('-', 50) + "\n"@;
    assert(s@ =~= old(s)@ + a);
    append_named_line(s, "id", r.ids[0][i].as_str());
    let ghost b = named_line("id"@, r.rows()[i as int]@);
    assert(s@ =~= old(s)@ + (a + b));
    let ghost mut c = Seq::<char>::empty();
    match r.distance(i) {
        Some(d) => {
            append_named_line(s, "distance", d.as_str());
            proof {
                c = named_line("distance"@, d@);
            }
        },
        None => {},
    }
    assert(s@ =~= old(s)@ + (a + b + c));
    let ghost mut d = Seq::<char>::empty();
    match r.document(i) {
        Some(t) => {
            append_named_line(s, "document", t.as_str());
            proof {
                d = named_line("document"@, t@);
            }
        },
        None => {},
    }
    assert(s@ =~= old(s)@ + (a + b + c + d));
    let ghost mut e = Seq::<char>::empty();
    match r.metadata(i) {
        Some(v) => {
            let lines: Vec<String> = split_lines(write_pretty(v).as_str());
            append_metadata_lines(s, &lines);
            proof {
                let l = lines_of(json_text::pretty_text(json_text::value_held(*v)));
                assert(l.len() == lines@.len());
                e = metadata_lines(l, l.len());
            }
        },
        None => {},
    }
    assert(s@ =~= old(s)@ + (a + b + c + d + e));
    s.append("\n");
    assert(s@ =~= old(s)@ + (a + b + c + d + e + "\n"@));
}

/// Shows a result with a value per line.
pub fn format_vertical(r: &QueryResult) -> (out: String)
    ensures
        out@ == vertical_of(*r),
{
    let n: usize = r.row_count();
    if n == 0 {
        return "Empty set".to_owned();
    }
    let mut s: String = String::new();
    let mut i: usize = 0;
    assert(s@ =~= vertical_rows(*r, 0));
    while i < n
        invariant
            i <= n,
            n == r.rows().len(),
            s@ == vertical_rows(*r, i as nat),
        decreases n - i,
    {
        append_vertical_row(&mut s, r, i);
        i += 1;
    }
    s
}

// ---------------------------------------------------------------------------
// Tables
// ---------------------------------------------------------------------------

/// The larger of two numbers.
pub open spec fn larger(a: nat, b: nat) -> nat {
    if a < b {
        b
    } else {
        a
    }
}

/// Width of the column of ids: that of its name or of its longest id.
pub open spec fn id_width(r: QueryResult, n: nat) -> nat
    decreases n,
{
    if n == 0 {
        2
    } else {
        larger(id_width(r, (n - 1) as nat), chars::bytes(r.rows()[n - 1]@))
    }
}

/// Width of the column of distances.
pub open spec fn distance_width(r: QueryResult, n: nat) -> nat
    decreases n,
{
    if n == 0 {
        8
    } else {
        let before = distance_width(r, (n - 1) as nat);
        match r.distance_at(n - 1) {
            Some(d) => larger(before, chars::bytes(d)),
            None => before,
        }
    }
}

/// Width of the column of documents.
pub open spec fn document_width(r: QueryResult, n: nat) -> nat
    decreases n,
{
    if n == 0 {
        8
    } else {
        let before = document_width(r, (n - 1) as nat);
        match r.document_at(n - 1) {
            Some(t) => larger(before, chars::bytes(short(t)->0)),
            None => before,
        }
    }
}

/// Whether the documents and metadata of the first rows can be cut to their
/// columns.
pub open spec fn fits_columns(r: QueryResult, n: nat) -> bool {
    forall|i: int|
        0 <= i < n ==> (#[trigger] r.document_at(i) matches Some(t) ==> short(t) is Some) && (
        r.metadata_at(i) matches Some(v) ==> short(json_text::json_text(v)) is Some)
}

/// The widths of the columns that a result has.
pub open spec fn widths(r: QueryResult) -> Seq<nat> {
    let n = r.rows().len();
    let a = seq![id_width(r, n)];
    let b = if r.distances is Some {
        a.push(distance_width(r, n))
    } else {
        a
    };
    let c = if r.documents is Some {
        b.push(document_width(r, n))
    } else {
        b
    };
    if r.metadatas is Some {
        c.push(8)
    } else {
        c
    }
}

/// The cells of a row. What a row lacks is left out.
pub open spec fn row_cells(r: QueryResult, i: int) -> Seq<Seq<char>> {
    let n = r.rows().len();
    let a = seq![cell(r.rows()[i]@, id_width(r, n))];
    let b = match r.distance_at(i) {
        Some(d) => a.push(cell(d, distance_width(r, n))),
        None => a,
    };
    let c = match r.document_at(i) {
        Some(t) => b.push(cell(short(t)->0, document_width(r, n))),
        None => b,
    };
    match r.metadata_at(i) {
        Some(v) => c.push(cell(short(json_text::json_text(v))->0, 8)),
        None => c,
    }
}

/// A line of a table.
pub open spec fn table_line(cells: Seq<Seq<char>>) -> Seq<char> {
    "|"@ + joined(cells, "|"@) + "|\n"@
}

/// The first rows of a table.
pub open spec fn table_rows(r: QueryResult, n: nat) -> Seq<char>
    decreases n,
{
    if n == 0 {
        Seq::empty()
    } else {
        table_rows(r, (n - 1) as nat) + table_line(row_cells(r, n - 1))
    }
}

/// The names of columns as cells.
pub open spec fn header_cells(r: QueryResult) -> Seq<Seq<char>> {
    Seq::new(headers(r).len(), |i: int| cell(headers(r)[i], widths(r)[i]))
}

/// The line between the names and the rows, and below these.
pub open spec fn table_rule(r: QueryResult) -> Seq<char> {
    "+"@ + joined(
        Seq::new(widths(r).len(), |i: int| repeated('-', widths(r)[i] + 2)),
        "+"@,
    ) + "+"@ + "\n"@
}

/// A result as a table. A document or metadata that cannot be cut to its column
/// cannot be shown.
pub open spec fn table_of(r: QueryResult) -> Option<Seq<char>> {
    if r.rows().len() == 0 {
        Some("Empty set"@)
    } else if !fits_columns(r, r.rows().len()) {
        None
    } else {
        Some(
            table_line(header_cells(r)) + table_rule(r) + table_rows(r, r.rows().len()) + table_rule(r),
        )
    }
}

/// The widths of the first three columns.
struct Columns {
    id: u128,
    distance: u128,
    document: u128,
}

/// Measures the columns. Nothing where a document or metadata cannot be cut.
fn measure(r: &QueryResult, n: usize) -> (c: Option<Columns>)
    requires
        n == r.rows().len(),
    ensures
        c is Some <==> fits_columns(*r, n as nat),
        c matches Some(c) ==> c.id == id_width(*r, n as nat) && c.distance == distance_width(*r, n as nat)
            && c.document == document_width(*r, n as nat) && c.id <= u64::MAX * 4 + 8 && c.distance
            <= u64::MAX * 4 + 8 && c.document <= u64::MAX * 4 + 8,
{
    let mut c = Columns { id: 2, distance: 8, document: 8 };
    let mut i: usize = 0;
    while i < n
        invariant
            i <= n,
            n == r.rows().len(),
            fits_columns(*r, i as nat),
            c.id == id_width(*r, i as nat),
            c.distance == distance_width(*r, i as nat),
            c.document == document_width(*r, i as nat),
            c.id <= u64::MAX * 4 + 8,
            c.distance <= u64::MAX * 4 + 8,
            c.document <= u64::MAX * 4 + 8,
        decreases n - i,
    {
        let id: Vec<char> = to_chars(r.ids[0][i].as_str());
        let w: u128 = byte_count(&id);
        if c.id < w {
            c.id = w;
        }
        match r.distance(i) {
            Some(d) => {
                let t: Vec<char> = to_chars(d.as_str());
                let w: u128 = byte_count(&t);
                if c.distance < w {
                    c.distance = w;
                }
            },
            None => {},
        }
        match r.document(i) {
            Some(t) => match shorten(t.as_str()) {
                Some(s) => {
                    let t: Vec<char> = to_chars(s.as_str());
                    let w: u128 = byte_count(&t);
                    if c.document < w {
                        c.document = w;
                    }
                },
                None => {
                    assert(r.document_at(i as int) is Some);
                    return None;
                },
            },
            None => {},
        }
        match r.metadata(i) {
            Some(v) => {
                if shorten(write_value(v).as_str()).is_none() {
                    assert(r.document_at(i as int) == r.document_at(i as int));
                    return None;
                }
            },
            None => {},
        }
        i += 1;
    }
    Some(c)
}

fn make_row_cells(r: &QueryResult, i: usize, c: &Columns) -> (cells: Vec<String>)
    requires
        i < r.rows().len(),
        fits_columns(*r, r.rows().len()),
        c.id == id_width(*r, r.rows().len()),
        c.distance == distance_width(*r, r.rows().len()),
        c.document == document_width(*r, r.rows().len()),
    ensures
        text::views(cells@) == row_cells(*r, i as int),
{
    assert(r.document_at(i as int) == r.document_at(i as int));
    let mut cells: Vec<String> = Vec::new();
    assert(text::views(cells@) =~= Seq::<Seq<char>>::empty());
    push_text(&mut cells, make_cell(r.ids[0][i].as_str(), c.id));
    assert(text::views(cells@) =~= seq![cell(r.rows()[i as int]@, id_width(*r, r.rows().len()))]);
    match r.distance(i) {
        Some(d) => {
            push_text(&mut cells, make_cell(d.as_str(), c.distance));
        },
        None => {},
    }
    match r.document(i) {
        Some(t) => match shorten(t.as_str()) {
            Some(s) => {
                push_text(&mut cells, make_cell(s.as_str(), c.document));
            },
            None => {},
        },
        None => {},
    }
    match r.metadata(i) {
        Some(v) => match shorten(write_value(v).as_str()) {
            Some(s) => {
                push_text(&mut cells, make_cell(s.as_str(), 8));
            },
            None => {},
        },
        None => {},
    }
    cells
}

/// Widths as mathematical values.
spec fn width_views(w: Seq<u128>) -> Seq<nat> {
    Seq::new(w.len(), |i: int| w[i] as nat)
}

fn make_widths(r: &QueryResult, c: &Columns) -> (w: Vec<u128>)
    requires
        c.id == id_width(*r, r.rows().len()),
        c.distance == distance_width(*r, r.rows().len()),
        c.document == document_width(*r, r.rows().len()),
        c.id <= u64::MAX * 4 + 8,
        c.distance <= u64::MAX * 4 + 8,
        c.document <= u64::MAX * 4 + 8,
    ensures
        width_views(w@) == widths(*r),
        w@.len() == headers(*r).len(),
        forall|i: int| 0 <= i < w@.len() ==> #[trigger] w@[i] <= u64::MAX * 4 + 8,
{
    let mut w: Vec<u128> = Vec::new();
    w.push(c.id);
    if r.distances.is_some() {
        w.push(c.distance);
    }
    if r.documents.is_some() {
        w.push(c.document);
    }
    if r.metadatas.is_some() {
        w.push(8);
    }
    assert(width_views(w@) =~= widths(*r));
    w
}

fn make_rule(r: &QueryResult, w: &Vec<u128>) -> (rule: String)
    requires
        width_views(w@) == widths(*r),
        forall|i: int| 0 <= i < w@.len() ==> #[trigger] w@[i] <= u64::MAX * 4 + 8,
    ensures
        rule@ == table_rule(*r),
{
    let mut dashes: Vec<String> = Vec::new();
    let mut i: usize = 0;
    while i < w.len()
        invariant
            i <= w.len(),
            width_views(w@) == widths(*r),
            forall|i: int| 0 <= i < w@.len() ==> #[trigger] w@[i] <= u64::MAX * 4 + 8,
            dashes@.len() == i,
            forall|j: int|
                0 <= j < i ==> (#[trigger] dashes@[j])@ == repeated('-', widths(*r)[j] + 2),
        decreases w.len() - i,
    {
        let mut d: String = String::new();
        assert(widths(*r)[i as int] == w@[i as int]);
        append_repeated(&mut d, '-', w[i] + 2);
        assert(d@ =~= repeated('-', widths(*r)[i as int] + 2));
        dashes.push(d);
        i += 1;
    }
    proof {
        assert(widths(*r).len() == w@.len());
        assert(text::views(dashes@) =~= Seq::new(
            widths(*r).len(),
            |i: int| repeated('-', widths(*r)[i] + 2),
        ));
    }
    let mut s: String = "+".to_owned();
    s.append(join(&dashes, "+").as_str());
    s.append("+");
    s.append("\n");
    s
}

fn make_line(cells: &Vec<String>) -> (line: String)
    ensures
        line@ == table_line(text::views(cells@)),
{
    let mut s: String = "|".to_owned();
    s.append(join(cells, "|").as_str());
    s.append("|\n");
    s
}

/// Shows a result as a table. Nothing where a document or metadata cannot be
/// cut to its column.
pub fn format_table(r: &QueryResult) -> (out: Option<String>)
    ensures
        match out {
            Some(s) => table_of(*r) == Some(s@),
            None => table_of(*r) is None,
        },
{
    let n: usize = r.row_count();
    if n == 0 {
        return Some("Empty set".to_owned());
    }
    let c: Columns = match measure(r, n) {
        Some(c) => c,
        None => {
            return None;
        },
    };
    let names: Vec<String> = make_headers(r);
    let w: Vec<u128> = make_widths(r, &c);
    let mut cells: Vec<String> = Vec::new();
    let mut i: usize = 0;
    while i < names.len()
        invariant
            i <= names.len(),
            text::views(names@) == headers(*r),
            width_views(w@) == widths(*r),
            w@.len() == names@.len(),
            cells@.len() == i,
            forall|j: int|
                0 <= j < i ==> (#[trigger] cells@[j])@ == cell(headers(*r)[j], widths(*r)[j]),
        decreases names.len() - i,
    {
        assert(headers(*r)[i as int] == names@[i as int]@);
        assert(widths(*r)[i as int] == w@[i as int]);
        cells.push(make_cell(names[i].as_str(), w[i]));
        i += 1;
    }
    proof {
        assert(headers(*r).len() == names@.len());
        assert(text::views(cells@) =~= header_cells(*r));
    }
    let mut s: String = make_line(&cells);
    let rule: String = make_rule(r, &w);
    s.append(rule.as_str());
    let ghost head = s@;
    let mut i: usize = 0;
    assert(s@ =~= head + table_rows(*r, 0));
    while i < n
        invariant
            i <= n,
            n == r.rows().len(),
            fits_columns(*r, n as nat),
            c.id == id_width(*r, n as nat),
            c.distance == distance_width(*r, n as nat),
            c.document == document_width(*r, n as nat),
            s@ == head + table_rows(*r, i as nat),
        decreases n - i,
    {
        let cells: Vec<String> = make_row_cells(r, i, &c);
        s.append(make_line(&cells).as_str());
        i += 1;
        assert(s@ =~= head + table_rows(*r, i as nat));
    }
    s.append(rule.as_str());
    Some(s)
}

/// Whether a text, if there is one, shows a result in a format.
pub open spec fn formatted(r: QueryResult, format: OutputFormat, as_json: Seq<char>, out: Option<String>) -> bool {
    match format {
        OutputFormat::Table => match out {
            Some(s) => table_of(r) == Some(s@),
            None => table_of(r) is None,
        },
        OutputFormat::Json => out matches Some(s) && s@ == as_json,
        OutputFormat::Csv => out matches Some(s) && s@ == csv_of(r),
        OutputFormat::Vertical => out matches Some(s) && s@ == vertical_of(r),
    }
}

/// Shows a result in a format. The JSON form is given; nothing where a table
/// cannot be made.
pub fn format_result(r: &QueryResult, format: OutputFormat, as_json: &str) -> (out: Option<String>)
    ensures
        formatted(*r, format, as_json@, out),
{
    match format {
        OutputFormat::Table => format_table(r),
        OutputFormat::Json => Some(as_json.to_owned()),
        OutputFormat::Csv => Some(format_csv(r)),
        OutputFormat::Vertical => Some(format_vertical(r)),
    }
}

// ---------------------------------------------------------------------------
// Laws
// ---------------------------------------------------------------------------

/// A text that is filled up starts with the text and has spaces behind it, up
/// to the width; a longer text stays whole.
pub proof fn filling_up_adds_spaces_behind(t: Seq<char>, w: nat, i: int)
    requires
        0 <= i < padded(t, w).len(),
    ensures
        padded(t, w).len() >= w,
        padded(t, w).len() >= t.len(),
        padded(t, w).len() == w || padded(t, w).len() == t.len(),
        i < t.len() ==> padded(t, w)[i] == t[i],
        i >= t.len() ==> padded(t, w)[i] == ' ',
{
}

/// A cell has a space on both sides of its text.
pub proof fn cells_have_spaces_around(t: Seq<char>, w: nat, i: int)
    requires
        t.len() <= w,
        0 <= i < w + 2,
    ensures
        cell(t, w).len() == w + 2,
        1 <= i <= t.len() ==> cell(t, w)[i] == t[i - 1],
        i == 0 || i > t.len() ==> cell(t, w)[i] == ' ',
{
    reveal_strlit(" ");
}

/// Doubling goes character by character: a quotation mark becomes two, and
/// every other character stays.
pub proof fn quotation_marks_alone_are_doubled(a: Seq<char>, b: Seq<char>, c: char)
    ensures
        doubled(a + b) == doubled(a) + doubled(b),
        c != '"' ==> doubled(seq![c]) == seq![c],
        doubled(seq!['"']) == seq!['"', '"'],
        doubled(Seq::empty()) == Seq::<char>::empty(),
    decreases b.len(),
{
    let none = Seq::<char>::empty();
    assert(seq![c].drop_last() =~= none);
    assert(seq!['"'].drop_last() =~= none);
    assert(doubled(none) == none);
    assert(none.push(c) =~= seq![c]);
    assert(none.push('"').push('"') =~= seq!['"', '"']);
    if b.len() == 0 {
        assert(a + b =~= a);
        assert(doubled(a) + doubled(b) =~= doubled(a));
    } else {
        quotation_marks_alone_are_doubled(a, b.drop_last(), c);
        assert((a + b).drop_last() =~= a + b.drop_last());
        assert((a + b).last() == b.last());
        assert(doubled(a + b) =~= doubled(a) + doubled(b));
    }
}

/// A text is told from its doubled form: different texts stay different.
pub proof fn doubling_keeps_texts_apart(a: Seq<char>, b: Seq<char>)
    requires
        doubled(a) == doubled(b),
    ensures
        a == b,
    decreases a.len(),
{
    if a.len() == 0 {
        if b.len() > 0 {
            assert(doubled(b).len() > 0);
        }
        assert(a =~= b);
    } else if b.len() == 0 {
        assert(doubled(a).len() > 0);
    } else {
        assert(doubled(a).last() == a.last());
        assert(doubled(b).last() == b.last());
        let x = doubled(a.drop_last());
        let y = doubled(b.drop_last());
        if a.last() == '"' {
            assert(x =~= doubled(a).drop_last().drop_last());
            assert(y =~= doubled(b).drop_last().drop_last());
        } else {
            assert(x =~= doubled(a).drop_last());
            assert(y =~= doubled(b).drop_last());
        }
        doubling_keeps_texts_apart(a.drop_last(), b.drop_last());
        assert(a =~= a.drop_last().push(a.last()));
        assert(b =~= b.drop_last().push(b.last()));
    }
}

/// What stands between texts stands between any two of them, and neither before
/// the first nor behind the last.
pub proof fn texts_are_joined_in_between(a: Seq<Seq<char>>, b: Seq<Seq<char>>, between: Seq<char>, t: Seq<char>)
    requires
        a.len() > 0,
        b.len() > 0,
    ensures
        joined(a + b, between) == joined(a, between) + between + joined(b, between),
        joined(seq![t], between) == t,
    decreases b.len(),
{
    assert((a + b).drop_last() =~= a + b.drop_last());
    assert((a + b).last() == b.last());
    if b.len() == 1 {
        assert(a + b.drop_last() =~= a);
    } else {
        texts_are_joined_in_between(a, b.drop_last(), between, t);
        assert(joined(a + b, between) =~= joined(a, between) + between + joined(b, between));
    }
}

/// A short text is shown whole; of a longer one, where every character is a
/// byte, the first 40 are.
pub proof fn long_texts_are_cut(t: Seq<char>)
    ensures
        chars::bytes(t) <= 40 ==> short(t) == Some(t),
        t.len() > 40 && (forall|k: int| 0 <= k < t.len() ==> (#[trigger] t[k] as int) < 0x80) ==> short(t) == Some(
            t.take(40),
        ),
        chars::bytes(t) > 40 ==> (short(t) matches Some(s) ==> chars::bytes(s) == 40 && s.len() <= t.len() && s
            == t.take(s.len() as int)),
{
    if t.len() > 40 && (forall|k: int| 0 <= k < t.len() ==> (#[trigger] t[k] as int) < 0x80) {
        chars::plain_texts_are_cut_by_characters(t, 0, 40);
        assert(t.subrange(0, 40) =~= t.take(40));
    }
    if chars::bytes(t) > 40 {
        chars::lemma_char_before(t, 0);
        assert(chars::bytes(t.take(0)) == 0);
        if let Some(s) = short(t) {
            let b = chars::char_before(t, 40)->0 as int;
            assert(0 <= b <= t.len() && chars::bytes(t.take(b)) == 40);
            assert(s =~= t.take(b));
        }
    }
}

/// A result has a column for each kind of thing that came with it: ids always,
/// then distances, documents and metadata.
pub proof fn columns_are_what_came(r: QueryResult)
    ensures
        headers(r)[0] == "id"@,
        headers(r).contains("distance"@) <==> r.distances is Some,
        headers(r).contains("document"@) <==> r.documents is Some,
        headers(r).contains("metadata"@) <==> r.metadatas is Some,
        r.distances is Some ==> headers(r)[1] == "distance"@,
        r.metadatas is Some ==> headers(r).last() == "metadata"@,
        headers(r).len() == 1 + (if r.distances is Some { 1int } else { 0 }) + (if r.documents is Some { 1int } else {
            0
        }) + (if r.metadatas is Some { 1int } else { 0 }),
        widths(r).len() == headers(r).len(),
{
    reveal_strlit("id");
    reveal_strlit("distance");
    reveal_strlit("document");
    reveal_strlit("metadata");
    assert("id"@.len() == 2);
    assert("distance"@[1] == 'i');
    assert("document"@[1] == 'o');
    assert("metadata"@[1] == 'e');
    let h = headers(r);
    if r.distances is Some {
        assert(h[1] == "distance"@);
    }
    if r.documents is Some {
        assert(h[if r.distances is Some { 2int } else { 1 }] == "document"@);
    }
    if r.metadatas is Some {
        assert(h[h.len() - 1] == "metadata"@);
    }
}

/// What is shown of a row is the entry in its place of the first list of each
/// kind.
pub proof fn rows_are_of_the_first_list(r: QueryResult, i: int)
    requires
        0 <= i,
    ensures
        r.ids@.len() > 0 ==> r.rows() == r.ids@[0]@,
        r.ids@.len() == 0 ==> r.rows().len() == 0,
        r.distances matches Some(d) ==> (d@.len() > 0 && i < d@[0]@.len() ==> r.distance_at(i) == Some(d@[0]@[i]@)),
        r.distance_at(i) is Some ==> r.distances is Some,
        r.documents matches Some(d) ==> (d@.len() > 0 && i < d@[0]@.len() ==> (r.document_at(i) is Some
            <==> d@[0]@[i] is Some) && (d@[0]@[i] matches Some(t) ==> r.document_at(i) == Some(t@))),
        r.document_at(i) is Some ==> r.documents is Some,
        r.metadatas matches Some(m) ==> (m@.len() > 0 && i < m@[0]@.len() ==> (r.metadata_at(i) is Some
            <==> m@[0]@[i] is Some) && (m@[0]@[i] matches Some(v) ==> r.metadata_at(i) == Some(
            json_text::value_held(v),
        ))),
        r.metadata_at(i) is Some ==> r.metadatas is Some,
{
}

/// Columns are wide enough for what stands in them and for their names, and no
/// wider than the widest of these.
pub proof fn columns_are_as_wide_as_needed(r: QueryResult, n: nat, i: int)
    requires
        n <= r.rows().len(),
    ensures
        id_width(r, n) >= 2,
        distance_width(r, n) >= 8,
        document_width(r, n) >= 8,
        0 <= i < n ==> id_width(r, n) >= chars::bytes(r.rows()[i]@),
        0 <= i < n ==> (r.distance_at(i) matches Some(d) ==> distance_width(r, n) >= chars::bytes(d)),
        0 <= i < n ==> (r.document_at(i) matches Some(t) ==> document_width(r, n) >= chars::bytes(short(t)->0)),
        id_width(r, n) == 2 || exists|k: int|
            0 <= k < n && id_width(r, n) == chars::bytes((#[trigger] r.rows()[k])@),
        distance_width(r, n) == 8 || exists|k: int|
            0 <= k < n && (#[trigger] r.distance_at(k) matches Some(d) && distance_width(r, n) == chars::bytes(d)),
        document_width(r, n) == 8 || exists|k: int|
            0 <= k < n && (#[trigger] r.document_at(k) matches Some(t) && document_width(r, n) == chars::bytes(
                short(t)->0,
            )),
    decreases n,
{
    if n > 0 {
        let m = (n - 1) as nat;
        columns_are_as_wide_as_needed(r, m, i);
        let x = r.rows()[n - 1];
        let d = r.distance_at(n - 1);
        let t = r.document_at(n - 1);
    }
}

/// Every row has its own line in comma-separated values, behind those of the
/// rows before it: its id, and behind commas its distance, document and
/// metadata, the last two in quotation marks.
pub proof fn values_have_a_line_each(r: QueryResult, i: int, n: nat)
    requires
        0 <= i < n,
    ensures
        exists|rest: Seq<char>|
            #[trigger] (csv_rows(r, i as nat) + csv_row(r, i) + rest) == csv_rows(r, n),
        csv_row(r, i).take(r.rows()[i]@.len() as int) == r.rows()[i]@,
        csv_row(r, i).last() == '\n',
        r.distance_at(i) is None && r.document_at(i) is None && r.metadata_at(i) is None ==> csv_row(r, i)
            == r.rows()[i]@.push('\n'),
        r.distance_at(i) matches Some(d) ==> (r.document_at(i) is None && r.metadata_at(i) is None ==> csv_row(r, i)
            == r.rows()[i]@.push(',') + d.push('\n')),
        r.document_at(i) matches Some(t) ==> (r.distance_at(i) is None && r.metadata_at(i) is None ==> csv_row(r, i)
            == r.rows()[i]@.push(',').push('"') + doubled(t).push('"').push('\n')),
        r.metadata_at(i) matches Some(v) ==> (r.distance_at(i) is None && r.document_at(i) is None ==> csv_row(r, i)
            == r.rows()[i]@.push(',').push('"') + doubled(json_text::json_text(v)).push('"').push('\n')),
    decreases n,
{
    reveal_strlit(",");
    reveal_strlit("\"");
    reveal_strlit(",\"");
    reveal_strlit("\n");
    let id = r.rows()[i]@;
    assert(csv_row(r, i).take(id.len() as int) =~= id);
    if r.distance_at(i) is None && r.document_at(i) is None && r.metadata_at(i) is None {
        assert(csv_row(r, i) =~= id.push('\n'));
    }
    if let Some(d) = r.distance_at(i) {
        if r.document_at(i) is None && r.metadata_at(i) is None {
            assert(csv_row(r, i) =~= id.push(',') + d.push('\n'));
        }
    }
    if let Some(t) = r.document_at(i) {
        if r.distance_at(i) is None && r.metadata_at(i) is None {
            assert(csv_row(r, i) =~= id.push(',').push('"') + doubled(t).push('"').push('\n'));
        }
    }
    if let Some(v) = r.metadata_at(i) {
        if r.distance_at(i) is None && r.document_at(i) is None {
            assert(csv_row(r, i) =~= id.push(',').push('"') + doubled(json_text::json_text(v)).push('"').push('\n'));
        }
    }
    if n == i + 1 {
        assert(csv_rows(r, i as nat) + csv_row(r, i) + Seq::<char>::empty() =~= csv_rows(r, n));
    } else {
        values_have_a_line_each(r, i, (n - 1) as nat);
        let rest = choose|rest: Seq<char>|
            #[trigger] (csv_rows(r, i as nat) + csv_row(r, i) + rest) == csv_rows(r, (n - 1) as nat);
        assert(csv_rows(r, i as nat) + csv_row(r, i) + (rest + csv_row(r, n - 1)) =~= csv_rows(r, n));
    }
}

/// Every row is shown in a table and with a value per line, behind the rows
/// before it.
pub proof fn rows_are_shown_in_order(r: QueryResult, i: int, n: nat)
    requires
        0 <= i < n,
    ensures
        exists|rest: Seq<char>|
            #[trigger] (vertical_rows(r, i as nat) + vertical_row(r, i) + rest) == vertical_rows(r, n),
        exists|rest: Seq<char>|
            #[trigger] (table_rows(r, i as nat) + table_line(row_cells(r, i)) + rest) == table_rows(r, n),
        vertical_rows(r, 0).len() == 0,
        table_rows(r, 0).len() == 0,
    decreases n,
{
    if n == i + 1 {
        assert(vertical_rows(r, i as nat) + vertical_row(r, i) + Seq::<char>::empty() =~= vertical_rows(r, n));
        assert(table_rows(r, i as nat) + table_line(row_cells(r, i)) + Seq::<char>::empty() =~= table_rows(r, n));
    } else {
        rows_are_shown_in_order(r, i, (n - 1) as nat);
        let a = choose|rest: Seq<char>|
            #[trigger] (vertical_rows(r, i as nat) + vertical_row(r, i) + rest) == vertical_rows(r, (n - 1) as nat);
        assert(vertical_rows(r, i as nat) + vertical_row(r, i) + (a + vertical_row(r, n - 1)) =~= vertical_rows(
            r,
            n,
        ));
        let b = choose|rest: Seq<char>|
            #[trigger] (table_rows(r, i as nat) + table_line(row_cells(r, i)) + rest) == table_rows(r, (n - 1) as nat);
        assert(table_rows(r, i as nat) + table_line(row_cells(r, i)) + (b + table_line(row_cells(r, n - 1)))
            =~= table_rows(r, n));
    }
}

/// A result without rows is shown as an empty set in every form. Otherwise
/// comma-separated values start with the line of the column names, and then come
/// all rows; with a value per line there are the rows alone.
pub proof fn results_are_shown_whole(r: QueryResult)
    ensures
        r.rows().len() == 0 ==> csv_of(r) == "Empty set"@ && vertical_of(r) == "Empty set"@ && table_of(r) == Some(
            "Empty set"@,
        ),
        r.rows().len() > 0 ==> {
            let names = joined(headers(r), ","@);
            &&& csv_of(r).take(names.len() as int) == names
            &&& csv_of(r)[names.len() as int] == '\n'
            &&& csv_of(r).skip(names.len() as int + 1) == csv_rows(r, r.rows().len())
            &&& vertical_of(r) == vertical_rows(r, r.rows().len())
        },
{
    reveal_strlit("\n");
    if r.rows().len() > 0 {
        let names = joined(headers(r), ","@);
        assert(csv_of(r).take(names.len() as int) =~= names);
        assert(csv_of(r).skip(names.len() as int + 1) =~= csv_rows(r, r.rows().len()));
    }
}

/// A table can be made where every document and all metadata can be cut to
/// their columns. It holds the names of the columns between rules, each as wide
/// as its column, and then all rows and a rule.
pub proof fn tables_hold_all_rows(r: QueryResult, i: int)
    requires
        r.rows().len() > 0,
    ensures
        table_of(r) is Some <==> forall|k: int|
            0 <= k < r.rows().len() ==> (#[trigger] r.document_at(k) matches Some(t) ==> short(t) is Some) && (
            r.metadata_at(k) matches Some(v) ==> short(json_text::json_text(v)) is Some),
        table_of(r) matches Some(t) ==> t == table_line(header_cells(r)) + table_rule(r) + table_rows(
            r,
            r.rows().len(),
        ) + table_rule(r),
        header_cells(r).len() == headers(r).len(),
        0 <= i < headers(r).len() ==> header_cells(r)[i] == cell(headers(r)[i], widths(r)[i]),
        widths(r)[0] == id_width(r, r.rows().len()),
        r.distances is Some ==> widths(r)[1] == distance_width(r, r.rows().len()),
        r.documents is Some ==> widths(r)[if r.distances is Some {
            2int
        } else {
            1
        }] == document_width(r, r.rows().len()),
        r.metadatas is Some ==> widths(r).last() == 8,
{
    assert(fits_columns(r, r.rows().len()) <==> forall|k: int|
        0 <= k < r.rows().len() ==> (#[trigger] r.document_at(k) matches Some(t) ==> short(t) is Some) && (
        r.metadata_at(k) matches Some(v) ==> short(json_text::json_text(v)) is Some));
}

/// The cells of a row are its id and what else it has, in the order of the
/// columns and each as wide as its column.
pub proof fn rows_fill_their_columns(r: QueryResult, i: int)
    ensures
        row_cells(r, i)[0] == cell(r.rows()[i]@, id_width(r, r.rows().len())),
        row_cells(r, i).len() == 1 + (if r.distance_at(i) is Some { 1int } else { 0 }) + (if r.document_at(
            i,
        ) is Some { 1int } else { 0 }) + (if r.metadata_at(i) is Some { 1int } else { 0 }),
        r.distance_at(i) matches Some(d) ==> row_cells(r, i)[1] == cell(d, distance_width(r, r.rows().len())),
        r.document_at(i) matches Some(t) ==> row_cells(r, i)[if r.distance_at(i) is Some {
            2int
        } else {
            1
        }] == cell(short(t)->0, document_width(r, r.rows().len())),
        r.metadata_at(i) matches Some(v) ==> row_cells(r, i).last() == cell(short(json_text::json_text(v))->0, 8),
{
}

/// A named value stands on a line of its own, behind its name.
pub proof fn named_values_stand_behind_their_names(name: Seq<char>, value: Seq<char>)
    requires
        name.len() <= 12,
    ensures
        named_line(name, value).len() == 12 + 3 + value.len() + 1,
        named_line(name, value).take(name.len() as int) == name,
        forall|k: int| name.len() <= k < 13 ==> #[trigger] named_line(name, value)[k] == ' ',
        named_line(name, value)[13] == '|',
        named_line(name, value).subrange(15, 15 + value.len() as int) == value,
        named_line(name, value).last() == '\n',
{
    reveal_strlit(" | ");
    reveal_strlit("\n");
    let l = named_line(name, value);
    assert(l.take(name.len() as int) =~= name);
    assert(l.subrange(15, 15 + value.len() as int) =~= value);
}

/// With a value per line a row starts with its number, counted from 1, and its
/// id, and then comes what else it has.
pub proof fn rows_name_their_values(r: QueryResult, i: int)
    requires
        0 <= i,
    ensures
        ({
            let head = "-[ RESULT "@ + text::decimal_text((i + 1) as nat) + " ]"@;
            let id = named_line("id"@, r.rows()[i]@);
            let row = vertical_row(r, i);
            &&& row.take(head.len() as int) == head
            &&& row.skip(head.len() as int + 51).take(id.len() as int) == id
            &&& r.distance_at(i) is None && r.document_at(i) is None && r.metadata_at(i) is None ==> row.len()
                == head.len() + 51 + id.len() + 1
            &&& r.distance_at(i) matches Some(d) ==> {
                let line = named_line("distance"@, d);
                row.skip(head.len() as int + 51 + id.len()).take(line.len() as int) == line
            }
            &&& r.distance_at(i) is None ==> (r.document_at(i) matches Some(t) ==> {
                let line = named_line("document"@, t);
                row.skip(head.len() as int + 51 + id.len()).take(line.len() as int) == line
            })
            &&& r.distance_at(i) matches Some(d) ==> (r.document_at(i) matches Some(t) ==> {
                let before = named_line("distance"@, d);
                let line = named_line("document"@, t);
                row.skip(head.len() as int + 51 + id.len() + before.len()).take(line.len() as int) == line
            })
        }),
{
    reveal_strlit("\n");
    let head = "-[ RESULT "@ + text::decimal_text((i + 1) as nat) + " ]"@;
    let id = named_line("id"@, r.rows()[i]@);
    let row = vertical_row(r, i);
    assert(row.take(head.len() as int) =~= head);
    assert(row.skip(head.len() as int + 51).take(id.len() as int) =~= id);
    if let Some(d) = r.distance_at(i) {
        let line = named_line("distance"@, d);
        assert(row.skip(head.len() as int + 51 + id.len()).take(line.len() as int) =~= line);
        if let Some(t) = r.document_at(i) {
            let next = named_line("document"@, t);
            assert(row.skip(head.len() as int + 51 + id.len() + line.len()).take(next.len() as int) =~= next);
        }
    } else if let Some(t) = r.document_at(i) {
        let line = named_line("document"@, t);
        assert(row.skip(head.len() as int + 51 + id.len()).take(line.len() as int) =~= line);
    }
}

/// A result is shown in the form that is asked for.
pub proof fn results_are_shown_as_asked(r: QueryResult, as_json: Seq<char>, out: Option<String>)
    ensures
        formatted(r, OutputFormat::Json, as_json, out) ==> (out matches Some(s) && s@ == as_json),
        formatted(r, OutputFormat::Csv, as_json, out) ==> (out matches Some(s) && s@ == csv_of(r)),
        formatted(r, OutputFormat::Vertical, as_json, out) ==> (out matches Some(s) && s@ == vertical_of(r)),
        formatted(r, OutputFormat::Table, as_json, out) ==> (out is Some <==> table_of(r) is Some) && (out matches Some(s)
            ==> table_of(r) == Some(s@)),
{
}

} // verus!
