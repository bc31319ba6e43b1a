use std::str::FromStr;

use rekha::config::{CollectionConfig, HnswConfig};
use rekha::num::F64;
use rekha::op::Operation;
use rekha::tags::{ClockTag, Epoch};
use rekha::types::{Distance, DistanceParseError, MetadataValue};

fn bits(v: &[f32]) -> Vec<u32> {
    v.iter().map(|x| x.to_bits()).collect()
}

fn double(f: F64) -> f64 {
    f64::from_bits(f.bits)
}

#[test]
fn clock_tag_ordering() {
    assert!(ClockTag { node: 1, seq: 0 } < ClockTag { node: 1, seq: 1 });
    assert!(
        ClockTag {
            node: 1,
            seq: u64::MAX
        } < ClockTag { node: 2, seq: 0 }
    );
    assert_eq!(ClockTag { node: 3, seq: 7 }, ClockTag { node: 3, seq: 7 });
    assert_ne!(ClockTag { node: 3, seq: 7 }, ClockTag { node: 3, seq: 8 });
}

#[test]
fn clock_tag_order_is_the_derived_one() {
    let tags = [(1u64, 0u64), (1, 1), (1, u64::MAX), (2, 0), (2, 5)];
    for a in tags {
        for b in tags {
            let x = ClockTag { node: a.0, seq: a.1 };
            let y = ClockTag { node: b.0, seq: b.1 };
            assert_eq!(x.is_before(&y), x < y);
        }
    }
}

#[test]
fn epoch_fencing_comparison() {
    assert!(Epoch(0) < Epoch(1));
    assert!(Epoch(5) > Epoch(4));
    assert_eq!(Epoch(2), Epoch(2));
    // The derived Ord is total: leader election picks the max epoch.
    let current = [Epoch(3), Epoch(1), Epoch(9), Epoch(2)]
        .into_iter()
        .max()
        .unwrap();
    assert_eq!(current, Epoch(9));
}

#[test]
fn older_epochs_are_told_apart() {
    assert!(Epoch(0).older_than(&Epoch(1)));
    assert!(!Epoch(1).older_than(&Epoch(1)));
    assert!(!Epoch(2).older_than(&Epoch(1)));
}

#[test]
fn hnsw_config_defaults() {
    let c = HnswConfig::default();
    assert_eq!(c.m, 16);
    assert_eq!(c.ef_construction, 200);
    assert_eq!(c.ef_search, 100);
    assert_eq!(c.batch_size, 100);
    assert_eq!(c.sync_threshold, 1000);
    assert_eq!(c.max_scan, 10_000);
}

#[test]
fn collection_config_new_uses_defaults() {
    let c = CollectionConfig::new("test".into(), 128, Distance::Cosine);
    assert_eq!(c.name, "test");
    assert_eq!(c.dimension, 128);
    assert_eq!(c.space, Distance::Cosine);
    assert_eq!(c.tenant, "default_tenant");
    assert_eq!(c.database, "default_database");
    assert!(c.metadata.is_none());
    assert_eq!(c.hnsw.m, 16);
    assert_eq!(c.hnsw.batch_size, 100);
    assert!(c.created_at_ms > 0);
}

#[test]
fn collection_config_ids_are_unique() {
    let a = CollectionConfig::new("a".into(), 4, Distance::L2);
    let b = CollectionConfig::new("b".into(), 4, Distance::L2);
    assert_ne!(a.id, b.id);
}

#[test]
fn distance_name_roundtrip() {
    for d in [Distance::L2, Distance::Cosine, Distance::Ip] {
        assert_eq!(Distance::from_str(d.name()).unwrap(), d);
    }
}

#[test]
fn distance_default_is_l2() {
    assert_eq!(Distance::default(), Distance::L2);
}

#[test]
fn distance_parse_errors() {
    assert_eq!(
        Distance::from_str("cos").unwrap_err(),
        DistanceParseError("cos".into())
    );
    assert_eq!(
        Distance::from_str("euclidean").unwrap_err(),
        DistanceParseError("euclidean".into())
    );
}

#[test]
fn distance_parse_error_message() {
    assert_eq!(
        Distance::from_str("cos").unwrap_err().message(),
        "unknown distance space `cos` (expected \"l2\", \"cosine\", or \"ip\")"
    );
}

#[test]
fn metadata_value_as_f64() {
    assert_eq!(MetadataValue::Int(5).as_f64().map(double), Some(5.0));
    let half = MetadataValue::Float(F64 { bits: 2.5f64.to_bits() });
    assert_eq!(half.as_f64().map(double), Some(2.5));
    assert!(MetadataValue::Str("x".into()).as_f64().is_none());
    assert!(MetadataValue::Bool(true).as_f64().is_none());
}

#[test]
fn integers_convert_as_the_machine_converts_them() {
    let mut x: u64 = 0x9e37_79b9_7f4a_7c15;
    for i in 0..2000u32 {
        x = x.wrapping_mul(6364136223846793005).wrapping_add(1442695040888963407);
        let n = (x as i64) >> (i % 64);
        assert_eq!(MetadataValue::Int(n).as_f64().map(|f| f.bits), Some((n as f64).to_bits()));
    }
    for n in [0, 1, -1, i64::MAX, i64::MIN, (1 << 53) + 1, (1 << 54) + 2, (1 << 54) + 6] {
        assert_eq!(MetadataValue::Int(n).as_f64().map(|f| f.bits), Some((n as f64).to_bits()));
    }
}

#[test]
fn operation_id_and_kind() {
    let add = Operation::Add {
        id: "a".into(),
        embedding: bits(&[1.0]),
        metadata: None,
        document: None,
    };
    assert_eq!(add.id(), "a");
    assert_eq!(add.kind(), "add");

    let update = Operation::Update {
        id: "b".into(),
        metadata: None,
        document: None,
    };
    assert_eq!(update.id(), "b");
    assert_eq!(update.kind(), "update");

    let delete = Operation::Delete { id: "c".into() };
    assert_eq!(delete.id(), "c");
    assert_eq!(delete.kind(), "delete");

    let upsert = Operation::Upsert {
        id: "d".into(),
        embedding: bits(&[2.0]),
        metadata: None,
        document: None,
    };
    assert_eq!(upsert.id(), "d");
    assert_eq!(upsert.kind(), "upsert");
}
