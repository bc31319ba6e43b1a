use rekha::cli::{
    already_initialized, collection_url, collections_url, leader_url, parse_peers, read_vectors,
    record_url, response_text, RecordAction,
};
use rekha::client::{count_of, create_request, heartbeat_of, outcome_of, Collection, RekhaClient};
use rekha::command::{parse_command, Command};
use rekha::display::{
    format_count, format_csv, format_result, format_table, format_vertical, OutputFormat, QueryResult,
};
use rekha::json::Json;
use rekha::num::F32;
use rekha::repl::{
    as_results, created_text, describe_text, dropped_text, find_collection, format_records, list_text,
    Action, Input,
    Repl, Request,
};
use rekha::readings::Readings;
use rekha::sql::{self, ParsedQuery};

fn text(s: &str) -> String {
    s.to_string()
}

// ---------------------------------------------------------------------------
// Output
// ---------------------------------------------------------------------------

fn rows(documents: &[Option<&str>], metadatas: &[Option<&str>]) -> QueryResult {
    QueryResult {
        ids: vec![(0..documents.len()).map(|i| format!("id-{i}")).collect()],
        distances: Some(vec![
            (0..documents.len()).map(|i| format!("{:.4}", i as f32 / 3.0)).collect(),
        ]),
        metadatas: Some(vec![
            metadatas.iter().map(|m| m.map(|m| serde_json::from_str(m).unwrap())).collect(),
        ]),
        documents: Some(vec![documents.iter().map(|d| d.map(text)).collect()]),
    }
}

#[test]
fn tables_are_laid_out() {
    let r = rows(&[Some("short"), Some("a much longer document")], &[Some(r#"{"a":1}"#), None]);
    let want = "\
| id   | distance | document               | metadata |
+------+----------+------------------------+----------+
| id-0 | 0.0000   | short                  | {\"a\":1}  |
| id-1 | 0.3333   | a much longer document |
+------+----------+------------------------+----------+
";
    assert_eq!(format_table(&r).unwrap(), want);
}

#[test]
fn long_cells_are_cut() {
    let long = "x".repeat(50);
    let r = rows(&[Some(&long)], &[None]);
    let t = format_table(&r).unwrap();
    assert!(t.contains(&format!("| {} |", "x".repeat(40))));
    assert!(!t.contains(&"x".repeat(41)));
    // A text that has no boundary there cannot be cut.
    let wide = format!("{}é{}", "x".repeat(39), "y".repeat(20));
    assert!(format_table(&rows(&[Some(&wide)], &[None])).is_none());
}

#[test]
fn csv_quotes_are_doubled() {
    let r = rows(&[Some("say \"hi\""), None], &[Some(r#"{"k":"v"}"#), None]);
    assert_eq!(
        format_csv(&r),
        "id,distance,document,metadata\n\
         id-0,0.0000,\"say \"\"hi\"\"\",\"{\"\"k\"\":\"\"v\"\"}\"\n\
         id-1,0.3333\n"
    );
}

#[test]
fn vertical_rows_list_their_fields() {
    let r = rows(&[Some("doc")], &[Some(r#"{"k":[1]}"#)]);
    let want = format!(
        "-[ RESULT 1 ]{}\n\
         id           | id-0\n\
         distance     | 0.0000\n\
         document     | doc\n\
         metadata     | {{\n             |   \"k\": [\n             |     1\n             |   ]\n             | }}\n\n",
        "-".repeat(50)
    );
    assert_eq!(format_vertical(&r), want);
}

#[test]
fn formats_are_chosen_by_name() {
    for f in [OutputFormat::Table, OutputFormat::Json, OutputFormat::Csv, OutputFormat::Vertical] {
        assert_eq!(OutputFormat::named(f.name()), Some(f));
    }
    assert_eq!(OutputFormat::named("xml"), None);
    assert_eq!(OutputFormat::default(), OutputFormat::Table);
    let r = rows(&[Some("d")], &[None]);
    assert_eq!(format_result(&r, OutputFormat::Json, "{}").unwrap(), "{}");
    assert_eq!(format_result(&r, OutputFormat::Csv, "{}").unwrap(), format_csv(&r));
    assert_eq!(format_result(&r, OutputFormat::Table, "{}"), format_table(&r));
    let none = QueryResult { ids: vec![], distances: None, metadatas: None, documents: None };
    assert_eq!(format_table(&none).unwrap(), "Empty set");
    assert_eq!(format_csv(&none), "Empty set");
    assert_eq!(format_vertical(&none), "Empty set");
}

#[test]
fn counts_are_timed() {
    assert_eq!(format_count(3, None), "3 rows in set");
    assert_eq!(format_count(7, Some("1.234")), "7 rows in set (1.234s)");
    let mut r = repl();
    assert_eq!(r.shown("out", "0.010"), "out\n(0.010s)\n");
    r.step(&line("\\timing"), &Readings::new());
    assert_eq!(r.shown("out", "0.010"), "out");
}

// ---------------------------------------------------------------------------
// Commands
// ---------------------------------------------------------------------------

#[test]
fn commands_are_read() {
    let is = |s: &str| format!("{:?}", parse_command(s));
    assert_eq!(is(" \\d "), format!("{:?}", Command::ListCollections));
    assert_eq!(is("\\dt"), format!("{:?}", Command::ListCollections));
    assert_eq!(is("\\d  books "), format!("{:?}", Command::DescribeCollection(text("books"))));
    assert_eq!(is("\\dt books"), format!("{:?}", Command::DescribeCollection(text("books"))));
    assert_eq!(is("\\x"), format!("{:?}", Command::ToggleVertical));
    assert_eq!(is("\\format json"), format!("{:?}", Command::SetFormat(text("json"))));
    assert_eq!(is("\\pager"), format!("{:?}", Command::TogglePager));
    assert_eq!(is("\\timing"), format!("{:?}", Command::ToggleTiming));
    assert_eq!(is("\\o out.txt"), format!("{:?}", Command::ExportToFile(text("out.txt"))));
    assert_eq!(is("\\i in.sql"), format!("{:?}", Command::ExecuteFile(text("in.sql"))));
    assert_eq!(is("\\create c"), format!("{:?}", Command::CreateCollection(text("c"))));
    assert_eq!(is("\\use c"), format!("{:?}", Command::UseCollection(text("c"))));
    assert_eq!(is("\\drop c"), format!("{:?}", Command::DropCollection(text("c"))));
    for s in ["\\clear", "\\cls"] {
        assert_eq!(is(s), format!("{:?}", Command::Clear));
    }
    for s in ["\\help", "\\h", "?"] {
        assert_eq!(is(s), format!("{:?}", Command::Help));
    }
    for s in ["\\quit", "\\q", "exit", "quit"] {
        assert_eq!(is(s), format!("{:?}", Command::Quit));
    }
    assert_eq!(is("\\nope"), format!("{:?}", Command::Unknown(text("\\nope"))));
}

// ---------------------------------------------------------------------------
// Sessions
// ---------------------------------------------------------------------------

fn repl() -> Repl {
    Repl::new(RekhaClient::new("http://h:1", None), None)
}

fn line(s: &str) -> Input {
    Input::Line(text(s))
}

#[test]
fn sessions_follow_their_commands() {
    let mut r = repl();
    let none = Readings::new();
    assert_eq!(r.prompt(), "rekha> ");
    assert!(matches!(r.step(&line(""), &none), Action::Nothing));
    assert!(matches!(r.step(&line("\\d"), &none), Action::ListCollections));
    assert!(matches!(r.step(&line("\\d books"), &none), Action::Describe(n) if n == "books"));
    assert!(matches!(r.step(&line("\\create c"), &none), Action::Create(n) if n == "c"));
    assert!(matches!(r.step(&line("\\drop c"), &none), Action::Drop(n) if n == "c"));
    assert!(matches!(r.step(&line("\\use c"), &none), Action::Say(_)));
    assert_eq!(r.prompt(), "rekha:c> ");
    assert!(matches!(r.step(&line("\\help"), &none), Action::Help));
    assert!(matches!(r.step(&line("\\clear"), &none), Action::Clear));
    assert!(matches!(r.step(&line("\\format nope"), &none), Action::Complain(_)));
    assert!(matches!(r.step(&line("SELECT * FROM c LIMIT 2"), &none), Action::Run(_)));
    assert!(matches!(r.step(&line("FROB"), &none), Action::Complain(m) if m == "Parse error: Unsupported query: FROB"));
    let near = line("SELECT * FROM c NEAREST TO [1.5]");
    assert!(matches!(r.step(&near, &none), Action::ReadSingle(t) if t == "1.5"));
    let cond = line("SELECT * FROM c WHERE k = 1.5");
    assert!(matches!(r.step(&cond, &none), Action::ReadDouble(t) if t == "1.5"));
    assert!(matches!(r.step(&line("\\q"), &none), Action::Leave));
    assert!(matches!(r.step(&Input::CtrlD, &none), Action::Leave));
}

#[test]
fn queries_become_requests() {
    let mut r = repl();
    let none = Readings::new();
    let mut known = Readings::new();
    known.add_single("1.0", Ok(F32 { bits: 1.0f32.to_bits() }));
    known.add_single("2.0", Ok(F32 { bits: 2.0f32.to_bits() }));
    let q = sql::parse_query("SELECT * FROM c NEAREST TO [1.0, 2.0] LIMIT 5", &known).unwrap();
    match r.request_for(q) {
        Request::Query { collection, request, format } => {
            assert_eq!(collection, "c");
            assert_eq!(request.n_results, Some(5));
            assert_eq!(request.query_embeddings, vec![vec![1.0f32.to_bits(), 2.0f32.to_bits()]]);
            assert_eq!(format, OutputFormat::Table);
        }
        _ => panic!("expected a query"),
    }
    r.step(&line("\\x"), &none);
    let q = sql::parse_query("SELECT * FROM c LIMIT 5", &none).unwrap();
    match r.request_for(q) {
        Request::Get { collection, limit, format, .. } => {
            assert_eq!(collection, "c");
            assert_eq!(limit, Some(5));
            assert_eq!(format, OutputFormat::Vertical);
        }
        _ => panic!("expected a read"),
    }
    let q = sql::parse_query("SELECT COUNT(*) FROM c", &none).unwrap();
    assert!(matches!(r.request_for(q), Request::Count { collection } if collection == "c"));
    let q = ParsedQuery::CreateCollection { name: text("n") };
    assert!(matches!(r.request_for(q), Request::Create { name } if name == "n"));
}

#[test]
fn collections_are_listed_and_described() {
    let c = |name: &str, d: Option<usize>| Collection { id: format!("id-{name}"), name: text(name), dimension: d };
    let all = vec![c("a", Some(3)), c("b", None)];
    assert_eq!(find_collection(&all, "b"), Some(1));
    assert_eq!(find_collection(&all, "z"), None);
    assert_eq!(list_text(&vec![]).unwrap(), "No collections found.\n");
    assert!(list_text(&all).unwrap().ends_with("\n2 collections\n"));
    assert_eq!(
        describe_text(&all[0], Some(9)),
        "Collection: a\nID: id-a\nDimension: 3\nRecords: 9\n"
    );
    assert_eq!(describe_text(&all[1], None), "Collection: b\nID: id-b\nDimension: Not set\n");
    let mut long = c("n", None);
    long.id = text("0123456789");
    assert_eq!(created_text(&long).unwrap(), "Collection 'n' created (id: 01234567)");
    assert_eq!(dropped_text("a"), "Collection 'a' dropped.");
    let r = as_results(vec![text("x")], None, Some(vec![Some(text("d"))]), None);
    assert_eq!(r.ids, vec![vec!["x"]]);
    assert!(r.distances.is_none());
}

/// A limit holds for records that are read, too.
#[test]
fn no_more_records_are_shown_than_asked_for() {
    let ids = || vec![text("a"), text("b")];
    let r = as_results(ids(), None, Some(vec![Some(text("d")), None]), Some(1));
    assert_eq!(r.ids, vec![vec!["a"]]);
    assert_eq!(r.documents, Some(vec![vec![Some(text("d"))]]));
    let shown = format_records(&r, OutputFormat::Csv, "").unwrap();
    assert!(shown.contains("a") && !shown.contains("b\n") && shown.lines().count() == 2);
    assert_eq!(as_results(ids(), None, None, Some(9)).ids, vec![ids()]);
    let none = as_results(vec![], None, None, Some(1));
    assert_eq!(format_records(&none, OutputFormat::Table, "").unwrap(), "Empty set");
}

// ---------------------------------------------------------------------------
// Clients
// ---------------------------------------------------------------------------

#[test]
fn clients_know_where_to_ask() {
    let c = RekhaClient::new("http://h:1", Some("key"));
    assert_eq!(c.token(), Some("key"));
    assert_eq!(c.heartbeat_url(), "http://h:1/api/v2/heartbeat");
    let all = c.collections_url("t", "d");
    assert_eq!(all, "http://h:1/api/v2/tenants/t/databases/d/collections");
    assert_eq!(c.collection_url("t", "d", "n"), format!("{all}/n"));
    assert_eq!(c.action_url("t", "d", "n", "query"), format!("{all}/n/query"));
    assert_eq!(create_request("n").name, "n");
}

#[test]
fn answers_are_read() {
    let j = |s: &str| Json::read(s, &Readings::new()).unwrap();
    assert_eq!(count_of(&j("5")).unwrap(), 5);
    assert_eq!(count_of(&j(r#"{"count": 6}"#)).unwrap(), 6);
    assert!(count_of(&j("\"x\"")).is_err());
    assert_eq!(heartbeat_of(&j(r#"{"nanosecond heartbeat": 12}"#)).unwrap(), 12);
    assert_eq!(heartbeat_of(&j("{}")).unwrap_err(), "Invalid heartbeat response");
    assert!(outcome_of("delete", true, "200 OK").is_ok());
    assert!(outcome_of("delete", false, "500 Oops").unwrap_err().contains("500 Oops"));
}

// ---------------------------------------------------------------------------
// Command line
// ---------------------------------------------------------------------------

#[test]
fn peers_are_numbered() {
    let of = |s: &str, n: u64| -> Vec<(u64, String)> {
        parse_peers(s, n).into_iter().map(|p| (p.node_id, p.addr)).collect()
    };
    assert!(of("", 1).is_empty());
    assert_eq!(of("a:1, b:2 ,c:3", 2), vec![(1, text("a:1")), (3, text("c:3"))]);
    assert_eq!(of("a:1", 9), vec![(1, text("a:1"))]);
    assert_eq!(leader_url("a:1, b:2", 2), Some(text("a:1")));
    assert_eq!(leader_url("a:1, b:2", 1), None);
    assert_eq!(leader_url("", 2), None);
    assert!(already_initialized("error: AlreadyInitialized"));
    assert!(already_initialized("forward to leader 1"));
    assert!(!already_initialized("disk full"));
}

#[test]
fn records_have_their_urls() {
    assert_eq!(collections_url("http://h"), "http://h/api/v2/collections");
    assert_eq!(collection_url("http://h", "7"), "http://h/api/v2/collections/7");
    let all = [
        (RecordAction::Add, "add"),
        (RecordAction::Upsert, "upsert"),
        (RecordAction::Update, "update"),
        (RecordAction::Delete, "delete"),
        (RecordAction::Query, "query"),
        (RecordAction::Get, "get"),
        (RecordAction::Count, "count"),
    ];
    for (a, name) in all {
        assert_eq!(record_url("http://h", "7", a), format!("http://h/api/v2/collections/7/{name}"));
    }
}

#[test]
fn responses_are_printed() {
    assert_eq!(response_text(true, "200 OK", r#"{"a":1}"#).unwrap(), "{\n  \"a\": 1\n}");
    assert_eq!(response_text(true, "200 OK", "plain").unwrap(), "plain");
    assert_eq!(
        response_text(false, "404 Not Found", "gone").unwrap_err(),
        "Error (404 Not Found): gone"
    );
}

#[test]
fn vectors_are_read_from_text() {
    let read = |text: &str| -> Vec<f32> {
        let mut known = Readings::new();
        loop {
            match read_vectors(text, &known) {
                Ok(v) => return v.iter().map(|b| f32::from_bits(*b)).collect(),
                Err(w) => {
                    let r = w.parse::<f32>().map(|x| F32 { bits: x.to_bits() });
                    known.add_single(&w, r.map_err(|e| e.to_string()));
                }
            }
        }
    };
    assert_eq!(read(" 1.5 x\n-2\t3e1 "), vec![1.5, -2.0, 30.0]);
    assert!(read("  ").is_empty());
}
