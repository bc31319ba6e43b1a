use rekha::filter::{ComparisonOp, WhereCondition, WhereFilter, WhereParseError};
use rekha::num::F64;
use rekha::postings::{Postings, ValueKey};
use rekha::readings::Readings;
use rekha::types::{Metadata, MetadataValue};
use roaring::RoaringBitmap;

fn num(x: f64) -> F64 {
    F64 { bits: x.to_bits() }
}

fn meta<const N: usize>(pairs: [(&str, MetadataValue); N]) -> Metadata {
    let mut m = Metadata::new();
    for (k, v) in pairs {
        m.insert(k.to_string(), v);
    }
    m
}

fn offsets(bm: &RoaringBitmap) -> Vec<u32> {
    bm.iter().collect()
}

fn parse(s: &str) -> WhereFilter {
    let mut known = Readings::new();
    if let Err(WhereParseError::Numbers(texts)) = WhereFilter::parse_json(s, &known) {
        for t in texts {
            let x: f64 = t.parse().unwrap();
            known.add_double(&t, Some(F64 { bits: x.to_bits() }));
        }
    }
    WhereFilter::parse_json(s, &known).unwrap()
}

#[test]
fn insert_remove_evaluate_eq() {
    let mut p = Postings::new();
    let a = meta([("tag", MetadataValue::Str("a".into()))]);
    let b = meta([("tag", MetadataValue::Str("b".into()))]);
    p.insert(1, Some(&a));
    p.insert(2, Some(&b));
    p.insert(3, None);
    assert_eq!(p.len(), 3);

    assert_eq!(
        offsets(&p.evaluate(&parse(r#"{"tag": {"$eq": "a"}}"#))),
        vec![1]
    );
    assert_eq!(
        offsets(&p.evaluate(&parse(r#"{"tag": {"$eq": "b"}}"#))),
        vec![2]
    );
    assert!(p.evaluate(&parse(r#"{"tag": {"$eq": "c"}}"#)).is_empty());

    // Overwrite record 1: tag a -> b.
    p.remove(1, Some(&a));
    p.insert(1, Some(&b));
    assert!(p.evaluate(&parse(r#"{"tag": {"$eq": "a"}}"#)).is_empty());
    assert_eq!(
        offsets(&p.evaluate(&parse(r#"{"tag": {"$eq": "b"}}"#))),
        vec![1, 2]
    );
}

#[test]
fn numeric_coercion_eq() {
    let mut p = Postings::new();
    let int5 = meta([("score", MetadataValue::Int(5))]);
    let flt5 = meta([("score", MetadataValue::Float(num(5.0)))]);
    let six = meta([("score", MetadataValue::Int(6))]);
    p.insert(1, Some(&int5));
    p.insert(2, Some(&flt5));
    p.insert(3, Some(&six));

    // Int(5) and Float(5.0) collide on the ValueKey::Num(5.0) posting.
    assert_eq!(
        offsets(&p.evaluate(&parse(r#"{"score": {"$eq": 5}}"#))),
        vec![1, 2]
    );
    assert_eq!(
        offsets(&p.evaluate(&parse(r#"{"score": {"$eq": 5.0}}"#))),
        vec![1, 2]
    );
    assert_eq!(
        offsets(&p.evaluate(&parse(r#"{"score": {"$eq": 6}}"#))),
        vec![3]
    );
}

#[test]
fn ne_requires_key_present() {
    let mut p = Postings::new();
    p.insert(1, Some(&meta([("tag", MetadataValue::Str("a".into()))])));
    p.insert(2, Some(&meta([("tag", MetadataValue::Str("b".into()))])));
    p.insert(3, None);
    p.insert(4, Some(&meta([("other", MetadataValue::Int(1))])));

    // $ne matches key-present != a; key-absent records (3, 4) never match.
    let got = p.evaluate(&parse(r#"{"tag": {"$ne": "a"}}"#));
    assert_eq!(offsets(&got), vec![2]);
}

#[test]
fn nin_matches_absent_key() {
    let mut p = Postings::new();
    p.insert(1, Some(&meta([("tag", MetadataValue::Str("a".into()))])));
    p.insert(2, Some(&meta([("tag", MetadataValue::Str("b".into()))])));
    p.insert(3, None);
    p.insert(4, Some(&meta([("other", MetadataValue::Int(1))])));
    p.insert(5, Some(&meta([("tag", MetadataValue::Str("c".into()))])));

    assert_eq!(
        offsets(&p.evaluate(&parse(r#"{"tag": {"$nin": ["a"]}}"#))),
        vec![2, 3, 4, 5]
    );
    // Absent key OR value not in list.
    assert_eq!(
        offsets(&p.evaluate(&parse(r#"{"tag": {"$nin": ["a", "c"]}}"#))),
        vec![2, 3, 4]
    );
}

#[test]
fn in_union() {
    let mut p = Postings::new();
    p.insert(1, Some(&meta([("tag", MetadataValue::Str("a".into()))])));
    p.insert(2, Some(&meta([("tag", MetadataValue::Str("b".into()))])));
    p.insert(3, Some(&meta([("tag", MetadataValue::Str("c".into()))])));
    assert_eq!(
        offsets(&p.evaluate(&parse(r#"{"tag": {"$in": ["a", "b"]}}"#))),
        vec![1, 2]
    );
}

#[test]
fn range_boundaries() {
    let mut p = Postings::new();
    for (off, score) in [(1, 10.0f64), (2, 50.0), (3, 51.0), (4, 99.0)] {
        p.insert(off, Some(&meta([("score", MetadataValue::Float(num(score)))])));
    }
    // Non-numeric value must not appear in numeric ranges.
    p.insert(5, Some(&meta([("score", MetadataValue::Str("x".into()))])));

    assert_eq!(
        offsets(&p.evaluate(&parse(r#"{"score": {"$gt": 50}}"#))),
        vec![3, 4]
    );
    assert_eq!(
        offsets(&p.evaluate(&parse(r#"{"score": {"$gte": 50}}"#))),
        vec![2, 3, 4]
    );
    assert_eq!(
        offsets(&p.evaluate(&parse(r#"{"score": {"$lt": 50}}"#))),
        vec![1]
    );
    assert_eq!(
        offsets(&p.evaluate(&parse(r#"{"score": {"$lte": 50}}"#))),
        vec![1, 2]
    );
    // Absent key -> empty for ranges.
    assert!(p.evaluate(&parse(r#"{"nope": {"$gt": 0}}"#)).is_empty());
}

#[test]
fn and_or_nesting() {
    let mut p = Postings::new();
    p.insert(
        1,
        Some(&meta([
            ("tag", MetadataValue::Str("a".into())),
            ("score", MetadataValue::Int(80)),
        ])),
    );
    p.insert(
        2,
        Some(&meta([
            ("tag", MetadataValue::Str("a".into())),
            ("score", MetadataValue::Int(5)),
        ])),
    );
    p.insert(
        3,
        Some(&meta([
            ("tag", MetadataValue::Str("b".into())),
            ("score", MetadataValue::Int(90)),
        ])),
    );

    assert_eq!(
        offsets(&p.evaluate(&parse(
            r#"{"$and": [{"tag": "a"}, {"score": {"$gte": 50}}]}"#
        ))),
        vec![1]
    );
    assert_eq!(
        offsets(&p.evaluate(&parse(r#"{"$or": [{"tag": "a"}, {"score": {"$lt": 50}}]}"#))),
        vec![1, 2]
    );
    // Nesting: tag a AND (score >= 50 OR score < 10) => both a records.
    assert_eq!(
        offsets(&p.evaluate(&parse(
            r#"{"$and": [{"tag": "a"}, {"$or": [{"score": {"$gte": 50}}, {"score": {"$lt": 10}}]}]}"#
        ))),
        vec![1, 2]
    );
}

#[test]
fn delete_clears_all_indexes() {
    let mut p = Postings::new();
    p.insert(
        1,
        Some(&meta([
            ("tag", MetadataValue::Str("a".into())),
            ("score", MetadataValue::Int(5)),
        ])),
    );
    p.insert(2, Some(&meta([("tag", MetadataValue::Str("a".into()))])));
    assert_eq!(p.len(), 2);

    p.remove(
        1,
        Some(&meta([
            ("tag", MetadataValue::Str("a".into())),
            ("score", MetadataValue::Int(5)),
        ])),
    );
    p.remove_all(1);

    assert_eq!(p.len(), 1);
    let tag_a = p.evaluate(&parse(r#"{"tag": {"$eq": "a"}}"#));
    assert_eq!(offsets(&tag_a), vec![2]);
    assert!(p.evaluate(&parse(r#"{"score": {"$gte": 0}}"#)).is_empty());
    // Record 2 still eligible for $nin (key tag present with value a).
    assert!(
        p.evaluate(&parse(r#"{"tag": {"$nin": ["b"]}}"#))
            .contains(2)
    );
}

#[test]
fn remove_all_even_without_prior_remove() {
    let mut p = Postings::new();
    p.insert(1, Some(&meta([("tag", MetadataValue::Str("a".into()))])));
    p.remove_all(1);
    assert_eq!(p.len(), 0);
    assert!(p.evaluate(&parse(r#"{"tag": {"$eq": "a"}}"#)).is_empty());
    assert!(p.evaluate(&parse(r#"{"tag": {"$nin": ["b"]}}"#)).is_empty());
}

#[test]
fn matches_where_filter_oracle() {
    // Cross-check a few arbitrary filters against WhereFilter::matches on
    // the same metadata, on a small corpus.
    let corpus = [
        (1u32, meta([("tag", MetadataValue::Str("a".into()))])),
        (
            2,
            meta([
                ("tag", MetadataValue::Str("b".into())),
                ("score", MetadataValue::Int(30)),
            ]),
        ),
        (
            3,
            meta([
                ("tag", MetadataValue::Str("a".into())),
                ("score", MetadataValue::Float(num(70.0))),
            ]),
        ),
        (4, meta([("score", MetadataValue::Int(5))])),
    ];
    let mut p = Postings::new();
    for (off, md) in &corpus {
        p.insert(*off, Some(md));
    }
    let filters = [
        r#"{"tag": {"$eq": "a"}}"#,
        r#"{"tag": {"$ne": "a"}}"#,
        r#"{"tag": {"$in": ["a", "b"]}}"#,
        r#"{"tag": {"$nin": ["a"]}}"#,
        r#"{"score": {"$gt": 20}}"#,
        r#"{"score": {"$lte": 30}}"#,
        r#"{"$and": [{"tag": "a"}, {"score": {"$gte": 70}}]}"#,
        r#"{"$or": [{"score": {"$lt": 10}}, {"tag": "b"}]}"#,
    ];
    for f in filters {
        let filter = parse(f);
        let expected: Vec<u32> = corpus
            .iter()
            .filter(|(_, md)| filter.matches(md))
            .map(|(off, _)| *off)
            .collect();
        assert_eq!(offsets(&p.evaluate(&filter)), expected, "filter {f}");
    }
}

#[test]
fn numbers_share_a_key_by_their_value() {
    let key = |v: MetadataValue| match ValueKey::from_value(&v) {
        ValueKey::Num { rank, exact: None } => rank,
        _ => panic!("not a number"),
    };
    assert_eq!(key(MetadataValue::Int(5)), key(MetadataValue::Float(num(5.0))));
    assert_eq!(key(MetadataValue::Int(0)), key(MetadataValue::Float(num(-0.0))));
    assert!(key(MetadataValue::Float(num(-1.5))) < key(MetadataValue::Int(-1)));
    assert!(key(MetadataValue::Int(-1)) < key(MetadataValue::Float(num(0.25))));
    assert!(key(MetadataValue::Float(num(0.25))) < key(MetadataValue::Int(1)));
}

/// Large integers that share a double are told apart, and what is not a number
/// equals nothing.
#[test]
fn shared_doubles_are_told_apart() {
    let big: i64 = 1 << 53;
    let values = [
        MetadataValue::Int(big),
        MetadataValue::Int(big + 1),
        MetadataValue::Float(num(big as f64)),
        MetadataValue::Float(num(f64::NAN)),
        MetadataValue::Int(-big),
        MetadataValue::Int(5),
    ];
    let mut p = Postings::new();
    for (i, v) in values.iter().enumerate() {
        p.insert(i as u32, Some(&meta([("x", v.clone())])));
    }
    let mut ops: Vec<ComparisonOp> = Vec::new();
    for v in &values {
        ops.push(ComparisonOp::Eq(v.clone()));
        ops.push(ComparisonOp::Ne(v.clone()));
        ops.push(ComparisonOp::In(vec![v.clone()]));
        ops.push(ComparisonOp::Nin(vec![v.clone()]));
        let n = v.as_f64().unwrap();
        ops.push(ComparisonOp::Gt(n));
        ops.push(ComparisonOp::Gte(n));
        ops.push(ComparisonOp::Lt(n));
        ops.push(ComparisonOp::Lte(n));
    }
    for op in ops {
        let f = WhereFilter { condition: WhereCondition::Comparison { key: "x".into(), op } };
        let expected: Vec<u32> = (0..values.len())
            .filter(|i| f.matches(&meta([("x", values[*i].clone())])))
            .map(|i| i as u32)
            .collect();
        assert_eq!(offsets(&p.evaluate(&f)), expected, "{f:?}");
    }
    let f = parse(r#"{"x": 9007199254740992}"#);
    assert_eq!(offsets(&p.evaluate(&f)), vec![0, 2]);
}

#[test]
fn doubles_order_by_value_over_their_range() {
    let mut p = Postings::new();
    let values = [-1.0e300, -2.5, -0.0, 0.0, 1.0e-300, 2.5, 1.0e300];
    for (i, v) in values.iter().enumerate() {
        p.insert(i as u32, Some(&meta([("x", MetadataValue::Float(num(*v)))])));
    }
    assert_eq!(offsets(&p.evaluate(&parse(r#"{"x": {"$lt": 0}}"#))), vec![0, 1]);
    assert_eq!(offsets(&p.evaluate(&parse(r#"{"x": {"$eq": 0}}"#))), vec![2, 3]);
    assert_eq!(offsets(&p.evaluate(&parse(r#"{"x": {"$gt": 0}}"#))), vec![4, 5, 6]);
    assert_eq!(offsets(&p.evaluate(&parse(r#"{"x": {"$gte": 2.5}}"#))), vec![5, 6]);
}

#[test]
fn an_empty_index_holds_nothing() {
    let p = Postings::new();
    assert!(p.is_empty());
    assert_eq!(p.len(), 0);
    assert!(p.evaluate(&parse(r#"{"x": {"$nin": [1]}}"#)).is_empty());
}
