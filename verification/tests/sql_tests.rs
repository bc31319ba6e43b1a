use rekha::json::Json;
use rekha::num::{F32, F64};
use rekha::readings::Readings;
use rekha::sql;
use rekha::sql::{ParsedQuery, QueryError};

/// Reads a query and every number that it asks for.
fn parse_query(text: &str) -> Result<ParsedQuery, QueryError> {
    let mut known = Readings::new();
    loop {
        match sql::parse_query(text, &known) {
            Err(QueryError::NeedsSingle(t)) => {
                let read = t.parse::<f32>().map(|x| F32 { bits: x.to_bits() });
                known.add_single(&t, read.map_err(|e| e.to_string()));
            }
            Err(QueryError::NeedsDouble(t)) => {
                known.add_double(&t, t.parse::<f64>().ok().map(|x| F64 { bits: x.to_bits() }));
            }
            done => return done,
        }
    }
}

fn bits(v: &[f32]) -> Vec<u32> {
    v.iter().map(|x| x.to_bits()).collect()
}

/// Tells how numbers are written.
fn tell_texts(known: &mut Readings, numbers: Vec<F64>) {
    for n in numbers {
        known.add_text(n, format!("{:?}", f64::from_bits(n.bits)));
    }
}

fn written(j: &Json) -> String {
    let mut known = Readings::new();
    match j.write(&known) {
        Err(n) => tell_texts(&mut known, n),
        Ok(t) => return t,
    }
    j.write(&known).unwrap()
}

#[test]
fn test_parse_select_all() {
    let q = parse_query("SELECT * FROM my-collection LIMIT 10").unwrap();
    match q {
        ParsedQuery::Select {
            collection, limit, ..
        } => {
            assert_eq!(collection, "my-collection");
            assert_eq!(limit, Some(10));
        }
        _ => panic!("Expected Select"),
    }
}

#[test]
fn test_parse_nearest_to() {
    let q =
        parse_query("SELECT * FROM my-collection NEAREST TO [0.1, 0.2, 0.3] LIMIT 5").unwrap();
    match q {
        ParsedQuery::Select {
            nearest_to, limit, ..
        } => {
            assert_eq!(nearest_to, Some(bits(&[0.1, 0.2, 0.3])));
            assert_eq!(limit, Some(5));
        }
        _ => panic!("Expected Select"),
    }
}

#[test]
fn test_parse_count() {
    let q = parse_query("SELECT COUNT(*) FROM my-collection").unwrap();
    match q {
        ParsedQuery::Count { collection } => {
            assert_eq!(collection, "my-collection");
        }
        _ => panic!("Expected Count"),
    }
}

#[test]
fn test_parse_where() {
    let q = parse_query("SELECT * FROM my-collection WHERE category = 'tech' LIMIT 5").unwrap();
    match q {
        ParsedQuery::Select { where_filter, .. } => {
            assert!(where_filter.is_some());
        }
        _ => panic!("Expected Select"),
    }
}

#[test]
fn test_parse_vertical() {
    let q = parse_query("SELECT * FROM my-collection NEAREST TO [1.0, 2.0] LIMIT 5 VERTICAL")
        .unwrap();
    match q {
        ParsedQuery::Select { vertical, .. } => {
            assert!(vertical);
        }
        _ => panic!("Expected Select"),
    }
}

#[test]
fn test_parse_create_collection() {
    let q = parse_query("CREATE COLLECTION my-vectors;").unwrap();
    match q {
        ParsedQuery::CreateCollection { name } => {
            assert_eq!(name, "my-vectors");
        }
        _ => panic!("Expected CreateCollection"),
    }
}

#[test]
fn test_parse_create_collection_empty_name() {
    let result = parse_query("CREATE COLLECTION ;");
    assert!(result.is_err());
}

fn filter(q: &str) -> Json {
    match parse_query(q).unwrap() {
        ParsedQuery::Select { where_filter, .. } => where_filter.unwrap(),
        _ => panic!("Expected Select"),
    }
}

#[test]
fn where_clauses_become_filters() {
    let t = |w: &str| written(&filter(&format!("SELECT * FROM c WHERE {w} LIMIT 5")));
    assert_eq!(t("category = 'tech'"), r#"{"category":{"$eq":"tech"}}"#);
    assert_eq!(t("score >= 5"), r#"{"score":{"$gte":5}}"#);
    assert_eq!(t("score != 2.5"), r#"{"score":{"$ne":2.5}}"#);
    assert_eq!(t(r#"{"score": {"$lt": 0.5}}"#), r#"{"score":{"$lt":0.5}}"#);
}

#[test]
fn keywords_are_read_in_either_case() {
    let q = parse_query("select id, document from c limit 3;").unwrap();
    match q {
        ParsedQuery::Select { collection, limit, fields, vertical, nearest_to, where_filter } => {
            assert_eq!(collection, "c");
            assert_eq!(limit, Some(3));
            assert_eq!(fields, vec!["id", "document"]);
            assert!(!vertical && nearest_to.is_none() && where_filter.is_none());
        }
        _ => panic!("Expected Select"),
    }
}

#[test]
fn each_query_error_is_told_apart() {
    let e = |q: &str| -> QueryError { parse_query(q).unwrap_err() };
    assert_eq!(e("CREATE COLLECTION").message(), "Unsupported query: CREATE COLLECTION");
    assert_eq!(e("SELECT COUNT(*)"), QueryError::MissingFromClause);
    assert_eq!(e("SELECT * FROM c NEAREST TO 1, 2"), QueryError::MissingOpen);
    assert_eq!(e("SELECT * FROM c NEAREST TO [1, 2"), QueryError::MissingClose);
    assert!(matches!(e("SELECT * FROM c NEAREST TO [1, x]"), QueryError::BadElement(_)));
    assert_eq!(
        e("SELECT * FROM c WHERE nothing").message(),
        "Cannot parse condition: nothing"
    );
    assert_eq!(e("FROB x").message(), "Unsupported query: FROB x");
    assert_eq!(e("SELECT * FROM c LIMIT 5 WHERE a = 1"), QueryError::OutOfOrder);
}

#[test]
fn limits_that_are_no_numbers_are_passed_over() {
    match parse_query("SELECT * FROM c LIMIT x").unwrap() {
        ParsedQuery::Select { limit, .. } => assert_eq!(limit, None),
        _ => panic!("Expected Select"),
    }
}

#[test]
fn numbers_are_asked_for_once() {
    let q = "SELECT * FROM c WHERE k = 1.5 NEAREST TO [2.5]";
    let mut known = Readings::new();
    assert_eq!(sql::parse_query(q, &known).unwrap_err(), QueryError::NeedsSingle("2.5".to_string()));
    known.add_single("2.5", Ok(F32 { bits: 2.5f32.to_bits() }));
    let e = sql::parse_query(q, &known).unwrap_err();
    assert_eq!(e.message(), "Number not read: 1.5");
    assert_eq!(e, QueryError::NeedsDouble("1.5".to_string()));
    known.add_double("1.5", Some(F64 { bits: 1.5f64.to_bits() }));
    assert!(sql::parse_query(q, &known).is_ok());
}

#[test]
fn values_are_told_apart() {
    let of = |v: &str| -> String {
        match parse_query(&format!("SELECT * FROM c WHERE k = {v}")).unwrap() {
            ParsedQuery::Select { where_filter: Some(w), .. } => written(&w),
            _ => panic!("Expected a filter"),
        }
    };
    assert_eq!(of("1.5"), r#"{"k":{"$eq":1.5}}"#);
    assert_eq!(of("-3"), r#"{"k":{"$eq":-3}}"#);
    assert_eq!(of("true"), r#"{"k":{"$eq":true}}"#);
    assert_eq!(of("word"), r#"{"k":{"$eq":"word"}}"#);
    assert_eq!(of("[1, x, 2.5]"), r#"{"k":{"$eq":[1,"x",2.5]}}"#);
    // A number that is not finite has no form in JSON.
    assert_eq!(of("inf"), r#"{"k":{"$eq":null}}"#);
}
