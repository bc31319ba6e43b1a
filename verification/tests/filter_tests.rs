use rekha::filter::{ComparisonOp, WhereCondition, WhereFilter, WhereParseError};
use rekha::json::Json;
use rekha::json_text::ReadError;
use rekha::num::F64;
use rekha::readings::Readings;
use rekha::types::{Metadata, MetadataValue};

fn num(x: f64) -> F64 {
    F64 { bits: x.to_bits() }
}

/// Tells how the texts of numbers are read.
fn tell(known: &mut Readings, texts: Vec<String>) {
    for t in texts {
        let x: f64 = t.parse().unwrap();
        known.add_double(&t, Some(F64 { bits: x.to_bits() }));
    }
}

/// Tells how numbers are written.
fn tell_texts(known: &mut Readings, numbers: Vec<F64>) {
    for n in numbers {
        known.add_text(n, format!("{:?}", f64::from_bits(n.bits)));
    }
}

fn parse_json(s: &str) -> Result<WhereFilter, WhereParseError> {
    let mut known = Readings::new();
    match WhereFilter::parse_json(s, &known) {
        Err(WhereParseError::Numbers(t)) => tell(&mut known, t),
        done => return done,
    }
    WhereFilter::parse_json(s, &known)
}

fn to_json(f: &WhereFilter) -> String {
    let mut known = Readings::new();
    match f.to_json(&known) {
        Err(n) => tell_texts(&mut known, n),
        Ok(t) => return t,
    }
    f.to_json(&known).unwrap()
}

fn read_json(s: &str) -> Result<Json, ReadError> {
    let mut known = Readings::new();
    match Json::read(s, &known) {
        Err(ReadError::Numbers(t)) => tell(&mut known, t),
        done => return done,
    }
    Json::read(s, &known)
}

fn metadata<const N: usize>(pairs: [(&str, MetadataValue); N]) -> Metadata {
    let mut m = Metadata::new();
    for (k, v) in pairs {
        m.insert(k.to_string(), v);
    }
    m
}

fn parse(s: &str) -> WhereFilter {
    parse_json(s).unwrap()
}

#[test]
fn parse_eq_operator() {
    let f: WhereFilter = parse_json(r#"{"a": {"$eq": 5}}"#).unwrap();
    assert_eq!(
        f,
        WhereFilter {
            condition: WhereCondition::Comparison {
                key: "a".into(),
                op: ComparisonOp::Eq(MetadataValue::Int(5)),
            }
        }
    );
}

#[test]
fn parse_eq_shorthand() {
    let f: WhereFilter = parse_json(r#"{"a": 5}"#).unwrap();
    assert_eq!(
        f,
        WhereFilter {
            condition: WhereCondition::Comparison {
                key: "a".into(),
                op: ComparisonOp::Eq(MetadataValue::Int(5)),
            }
        }
    );
}

#[test]
fn parse_and() {
    let f: WhereFilter =
        parse_json(r#"{"$and": [{"a": {"$gt": 1}}, {"b": {"$in": ["x", "y"]}}]}"#)
            .unwrap();
    assert_eq!(
        f,
        WhereFilter {
            condition: WhereCondition::And(vec![
                WhereCondition::Comparison {
                    key: "a".into(),
                    op: ComparisonOp::Gt(num(1.0)),
                },
                WhereCondition::Comparison {
                    key: "b".into(),
                    op: ComparisonOp::In(vec![
                        MetadataValue::Str("x".into()),
                        MetadataValue::Str("y".into())
                    ]),
                },
            ])
        }
    );
}

#[test]
fn parse_or() {
    let f: WhereFilter =
        parse_json(r#"{"$or": [{"a": 1}, {"b": {"$lt": 3}}]}"#).unwrap();
    assert_eq!(
        f,
        WhereFilter {
            condition: WhereCondition::Or(vec![
                WhereCondition::Comparison {
                    key: "a".into(),
                    op: ComparisonOp::Eq(MetadataValue::Int(1)),
                },
                WhereCondition::Comparison {
                    key: "b".into(),
                    op: ComparisonOp::Lt(num(3.0)),
                },
            ])
        }
    );
}

#[test]
fn parse_implicit_and_top_level() {
    let f: WhereFilter = parse_json(r#"{"a": 1, "b": 2}"#).unwrap();
    match &f.condition {
        WhereCondition::And(conds) => assert_eq!(conds.len(), 2),
        other => panic!("expected And, got {other:?}"),
    }
    assert!(f.matches(&metadata([
        ("a", MetadataValue::Int(1)),
        ("b", MetadataValue::Int(2))
    ])));
    assert!(!f.matches(&metadata([
        ("a", MetadataValue::Int(1)),
        ("b", MetadataValue::Int(3))
    ])));
}

#[test]
fn matches_each_op() {
    let f = parse(r#"{"a": {"$eq": 5}}"#);
    assert!(f.matches(&metadata([("a", MetadataValue::Int(5))])));
    assert!(!f.matches(&metadata([("a", MetadataValue::Int(6))])));
    assert!(!f.matches(&Metadata::new()));

    // int vs float coercion for $eq
    let f = parse(r#"{"a": {"$eq": 5}}"#);
    assert!(f.matches(&metadata([("a", MetadataValue::Float(num(5.0)))])));

    let f = parse(r#"{"a": {"$ne": 5}}"#);
    assert!(f.matches(&metadata([("a", MetadataValue::Int(6))])));
    assert!(!f.matches(&metadata([("a", MetadataValue::Int(5))])));
    assert!(!f.matches(&Metadata::new()));

    let f = parse(r#"{"a": {"$gt": 1}}"#);
    assert!(f.matches(&metadata([("a", MetadataValue::Int(2))])));
    assert!(!f.matches(&metadata([("a", MetadataValue::Int(1))])));
    assert!(!f.matches(&metadata([("a", MetadataValue::Str("hi".into()))])));

    let f = parse(r#"{"a": {"$gte": 1}}"#);
    assert!(f.matches(&metadata([("a", MetadataValue::Float(num(1.0)))])));

    let f = parse(r#"{"a": {"$lt": 3}}"#);
    assert!(f.matches(&metadata([("a", MetadataValue::Int(2))])));
    assert!(!f.matches(&metadata([("a", MetadataValue::Int(3))])));

    let f = parse(r#"{"a": {"$lte": 3}}"#);
    assert!(f.matches(&metadata([("a", MetadataValue::Int(3))])));
    assert!(!f.matches(&metadata([("a", MetadataValue::Int(4))])));

    let f = parse(r#"{"a": {"$in": [1, "two"]}}"#);
    assert!(f.matches(&metadata([("a", MetadataValue::Int(1))])));
    assert!(f.matches(&metadata([("a", MetadataValue::Str("two".into()))])));
    assert!(!f.matches(&metadata([("a", MetadataValue::Int(3))])));

    // $nin matches when the key is absent OR not in the list
    let f = parse(r#"{"a": {"$nin": [1, 2]}}"#);
    assert!(f.matches(&Metadata::new()));
    assert!(f.matches(&metadata([("a", MetadataValue::Int(3))])));
    assert!(!f.matches(&metadata([("a", MetadataValue::Int(1))])));
}

#[test]
fn matches_and_or() {
    let f = parse(r#"{"$and": [{"a": {"$gt": 1}}, {"b": {"$in": ["x", "y"]}}]}"#);
    assert!(f.matches(&metadata([
        ("a", MetadataValue::Int(2)),
        ("b", MetadataValue::Str("x".into()))
    ])));
    assert!(!f.matches(&metadata([
        ("a", MetadataValue::Int(2)),
        ("b", MetadataValue::Str("z".into()))
    ])));
    assert!(!f.matches(&metadata([
        ("a", MetadataValue::Int(0)),
        ("b", MetadataValue::Str("x".into()))
    ])));

    let f = parse(r#"{"$or": [{"a": {"$eq": 1}}, {"b": {"$lt": 3}}]}"#);
    assert!(f.matches(&metadata([("a", MetadataValue::Int(1))])));
    assert!(f.matches(&metadata([("b", MetadataValue::Int(2))])));
    assert!(!f.matches(&metadata([
        ("a", MetadataValue::Int(9)),
        ("b", MetadataValue::Int(9))
    ])));
}

#[test]
fn to_json_roundtrip() {
    let f = parse(r#"{"$and": [{"a": {"$gt": 1}}, {"b": {"$in": ["x", "y"]}}, {"c": 5}]}"#);
    let json = to_json(&f);
    let f2: WhereFilter = parse_json(json.as_str()).unwrap();
    assert_eq!(f, f2);
}

#[test]
fn from_json_value_and_parse_json_agree() {
    let f = parse_json(r#"{"a": {"$eq": 5}}"#).unwrap();
    let g: WhereFilter = parse_json(r#"{"a": {"$eq": 5}}"#).unwrap();
    assert_eq!(f, g);
}

#[test]
fn parse_errors() {
    assert!(parse_json(r#"{"a": {"$bogus": 1}}"#).is_err());
    assert!(
        parse_json(r#"{"$and": [{"a": 1}], "$or": [{"b": 2}]}"#)
            .is_err()
    );
    assert!(parse_json(r#"{"$or": [{"a": 1}], "b": 2}"#).is_err());
    assert!(parse_json(r#"{}"#).is_err());
    assert!(parse_json(r#"[1, 2]"#).is_err());
    assert!(parse_json(r#"{"a": {"$gt": "x"}}"#).is_err());
    assert!(parse_json(r#"{"a": null}"#).is_err());
}

fn error(s: &str) -> WhereParseError {
    parse_json(s).unwrap_err()
}

#[test]
fn each_parse_error_is_told_apart() {
    assert_eq!(error(r#"[1, 2]"#), WhereParseError::ExpectedObject("array"));
    assert_eq!(
        error(r#"{"$and": 5}"#),
        WhereParseError::ExpectedArray { op: "$and", value: "number" }
    );
    assert_eq!(
        error(r#"{"a": {"$in": 5}}"#),
        WhereParseError::ExpectedArray { op: "$in", value: "number" }
    );
    assert_eq!(
        error(r#"{"a": {"$bogus": 1}}"#),
        WhereParseError::UnknownOperator("$bogus".into())
    );
    assert_eq!(
        error(r#"{"a": {"$gt": "x"}}"#),
        WhereParseError::ExpectedNumber { op: "$gt", value: "string" }
    );
    assert_eq!(error(r#"{"a": {}}"#), WhereParseError::EmptyOps("a".into()));
    assert_eq!(error(r#"{"a": null}"#), WhereParseError::InvalidValue("null"));
    assert_eq!(
        error(r#"{"$and": [{"a": 1}], "$or": [{"b": 2}]}"#),
        WhereParseError::AndOrConflict
    );
    assert_eq!(
        error(r#"{"$or": [{"a": 1}], "b": 2}"#),
        WhereParseError::OrWithOtherKeys
    );
    assert_eq!(error(r#"{}"#), WhereParseError::Empty);
    assert_eq!(error(r#"{"$and": [{}]}"#), WhereParseError::Empty);
    assert_eq!(error(r#"{"a": 9223372036854775808}"#), WhereParseError::NumberOutOfRange);
    assert_eq!(error(r#"{"a": {"$in": [1, 18446744073709551615]}}"#), WhereParseError::NumberOutOfRange);
    assert_eq!(error(r#"{"$and": []}"#), WhereParseError::EmptyList("$and"));
    assert!(matches!(error("{"), WhereParseError::InvalidJson(_)));
}

#[test]
fn values_of_json_and_its_text_agree() {
    let text = r#"{"$or": [{"a": {"$nin": [1, 2.5, true, "x"]}}, {"b": {"$lte": -3}}]}"#;
    let f = parse(text);
    let g = WhereFilter::from_json_value(&read_json(text).unwrap()).unwrap();
    assert_eq!(f, g);
    assert_eq!(WhereFilter::from_json_value(&f.to_json_value()).unwrap(), f);
}

/// Every form that is read has a canonical form that stands for the same.
#[test]
fn canonical_forms_lose_nothing() {
    for text in [
        r#"{"a": 5}"#,
        r#"{"a": 1, "b": {"$gt": 1, "$lte": 2.5}}"#,
        r#"{"$and": [{"a": 1}], "b": true}"#,
        r#"{"$or": [{"a": {"$in": []}}, {"$and": [{"b": -0.5}, {"c": "x", "d": 2}]}]}"#,
        r#"{"$or": [{"a": 18}]}"#,
        r#"{"a": {"$lt": 18446744073709551615}}"#,
    ] {
        let f = parse(text);
        assert_eq!(parse(&to_json(&f)), f, "{text}");
    }
    assert_eq!(to_json(&parse(r#"{"a": 5}"#)), r#"{"a":{"$eq":5}}"#);
}

#[test]
fn written_filters_match_the_same() {
    let f = parse(r#"{"$or": [{"a": {"$gte": 2.5}}, {"b": {"$nin": ["x"]}}, {"c": {"$ne": true}}]}"#);
    let g = parse(&to_json(&f));
    let cases = [
        metadata([("a", MetadataValue::Int(3))]),
        metadata([("a", MetadataValue::Float(num(2.0))), ("b", MetadataValue::Str("x".into()))]),
        metadata([("b", MetadataValue::Str("x".into())), ("c", MetadataValue::Bool(true))]),
        metadata([("b", MetadataValue::Str("x".into())), ("c", MetadataValue::Bool(false))]),
    ];
    for m in &cases {
        assert_eq!(f.matches(m), g.matches(m));
    }
    assert_eq!(cases.iter().map(|m| f.matches(m)).collect::<Vec<_>>(), vec![true, false, false, true]);
}

#[test]
fn integers_are_read_up_to_their_bounds() {
    for i in [i64::MIN, -1, 0, i64::MAX] {
        assert_eq!(
            parse(&format!("{{\"a\": {i}}}")),
            WhereFilter {
                condition: WhereCondition::Comparison {
                    key: "a".into(),
                    op: ComparisonOp::Eq(MetadataValue::Int(i)),
                }
            }
        );
    }
}

/// All numbers of a text are asked for at once, and only those that are no
/// integers; what is told later changes nothing.
#[test]
fn numbers_of_json_are_asked_for_once() {
    let text = r#"{"a": [1.5, 2, {"b": -0.25}], "c": 1.5}"#;
    let mut known = Readings::new();
    let asked = match Json::read(text, &known) {
        Err(ReadError::Numbers(t)) => t,
        other => panic!("{other:?}"),
    };
    assert_eq!(asked, vec!["1.5", "-0.25", "1.5"]);
    known.add_double("1.5", Some(num(1.5)));
    assert_eq!(
        Json::read(text, &known).unwrap_err(),
        ReadError::Numbers(vec!["-0.25".to_string()])
    );
    known.add_double("-0.25", Some(num(-0.25)));
    let first = Json::read(text, &known).unwrap();
    known.add_double("7.5", Some(num(7.5)));
    assert_eq!(Json::read(text, &known).unwrap(), first);
    assert!(matches!(Json::read("{", &known), Err(ReadError::Invalid(_))));
    assert_eq!(Json::read("[1, -2]", &Readings::new()).unwrap(), read_json("[1, -2]").unwrap());
}

/// A number is written by the text that was given for it.
#[test]
fn numbers_are_written_by_their_texts() {
    let f = parse(r#"{"a": {"$gt": 0.5}}"#);
    let mut known = Readings::new();
    assert_eq!(f.to_json(&known), Err(vec![num(0.5)]));
    known.add_text(num(0.5), "0.5".to_string());
    assert_eq!(f.to_json(&known).unwrap(), r#"{"a":{"$gt":0.5}}"#);
    let e = WhereFilter::parse_json(r#"{"a": 0.5}"#, &known).unwrap_err();
    assert_eq!(e, WhereParseError::Numbers(vec!["0.5".to_string()]));
    assert_eq!(e.message(), "numbers not read");
    known.add_double("0.5", Some(num(0.5)));
    assert_eq!(WhereFilter::parse_json(&f.to_json(&known).unwrap(), &known).unwrap(), f);
}
