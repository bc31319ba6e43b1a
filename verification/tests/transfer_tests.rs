use rekha::num::{F32, F64};
use rekha::readings::Readings;
use rekha::rpc::{
    collection_outcome, gather, insert_outcome, points, Client, ConsistencyLevel, FoundPoint, Payload,
    RekhaError,
};
use rekha::transfer::{export_line, read_line, ImportRecord, Importer, BATCH};

fn text(s: &str) -> String {
    s.to_string()
}

fn double(x: f64) -> F64 {
    F64 { bits: x.to_bits() }
}

#[test]
fn lines_become_vectors() {
    let mut known = Readings::new();
    let line = r#"{"id": 7, "vector": [1, "x", 2.5, null, -3], "payload": "p", "timestamp": 9}"#;
    assert_eq!(read_line(line, &known), Err(vec![text("2.5")]));
    known.add_double("2.5", Some(double(2.5)));
    let want = ImportRecord {
        id: 7,
        vector: vec![double(1.0), double(2.5), double(-3.0)],
        payload: Some(text("p")),
        timestamp: 9,
    };
    assert_eq!(read_line(line, &known), Ok(Some(want)));
    let known = Readings::new();
    let empty = ImportRecord { id: 0, vector: vec![], payload: None, timestamp: 0 };
    assert_eq!(read_line("{}", &known), Ok(Some(empty)));
    let other = ImportRecord { id: 0, vector: vec![], payload: None, timestamp: 0 };
    assert_eq!(read_line(r#"[{"id": -1, "payload": 3}]"#, &known), Ok(Some(other)));
    assert_eq!(read_line("  \t", &known), Ok(None));
    assert_eq!(read_line("not json", &known), Ok(None));
}

#[test]
fn batches_are_full_but_for_the_last() {
    let mut importer = Importer::new();
    let known = Readings::new();
    let mut sent: Vec<Vec<ImportRecord>> = Vec::new();
    for i in 0..1203 {
        sent.extend(importer.take_line(&format!("{{\"id\": {i}}}"), &known).unwrap());
        // A line whose numbers are not read yet is not taken.
        assert_eq!(importer.take_line("[0.5]", &known), Err(vec![text("0.5")]));
        // A line without a vector adds nothing.
        assert_eq!(importer.take_line("", &known), Ok(None));
    }
    sent.extend(importer.finish());
    let sizes: Vec<usize> = sent.iter().map(|b| b.len()).collect();
    assert_eq!(sizes, vec![BATCH, BATCH, 203]);
    let ids: Vec<u64> = sent.iter().flatten().map(|r| r.id).collect();
    assert_eq!(ids, (0..1203).collect::<Vec<u64>>());
    assert!(Importer::new().finish().is_none());
}

#[test]
fn vectors_become_lines() {
    assert_eq!(
        export_line(3, &vec![text("1.000000"), text("0.500000")], Some("p"), 8),
        r#"{"id":3,"vector":[1.000000,0.500000],"payload":"p","timestamp":8}"#
    );
    assert_eq!(
        export_line(0, &vec![], None, 1),
        r#"{"id":0,"vector":[],"payload":null,"timestamp":1}"#
    );
}

#[test]
fn requests_carry_their_envelope() {
    let c = Client::create_collection("c", 17u8);
    assert_eq!((c.name.as_str(), c.config), ("c", 17));
    assert_eq!(c.envelope.consistency, ConsistencyLevel::Quorum);
    assert_eq!(c.envelope.origin_node_id, "client");
    assert!(!c.envelope.is_replication);
    assert_eq!(Client::drop_collection("c").name, "c");
    let i = Client::insert("c", 1, vec![2], Some(vec![3]), 4, ConsistencyLevel::One);
    let p = i.payload.unwrap();
    assert_eq!((p.content_type.as_str(), p.data), ("application/octet-stream", vec![3]));
    assert_eq!((i.envelope.timestamp, i.envelope.consistency), (4, ConsistencyLevel::One));
    let d = Client::delete("c", vec![1, 2], 5, ConsistencyLevel::One);
    assert_eq!((d.ids, d.envelope.timestamp), (vec![1, 2], 5));
    assert_eq!(Client::fetch("c", vec![1], true).consistency, ConsistencyLevel::One);
    let s = Client::search("c", vec![1], 10, 4, false);
    assert_eq!((s.top_k, s.nprobe, s.ef_search, s.local_only), (10, 4, 0, false));
    assert_eq!(Client::health().node_id, "client");
    assert_eq!(Client::send_heartbeat("n", "a").address, "a");
    assert_eq!(Client::export("c", 1, 2, true, false).limit, 2);
    assert_eq!(Client::transfer_shard("c", "n").shard_id, 0);
}

#[test]
fn answers_are_handed_over() {
    assert_eq!(collection_outcome(true, text("")), Ok(true));
    assert_eq!(collection_outcome(false, text("e")), Err(RekhaError::InvalidArgument(text("e"))));
    assert_eq!(insert_outcome(true, text("")), Ok(true));
    assert_eq!(insert_outcome(false, text("e")), Err(RekhaError::Internal(text("e"))));
    let found = vec![FoundPoint {
        id: 1,
        score: F32 { bits: 5 },
        payload: Some(Payload { content_type: text("t"), data: vec![9] }),
        timestamp: u64::MAX,
    }];
    let got = points(found);
    assert_eq!((got[0].id, got[0].score.bits, got[0].timestamp), (1, 5, -1));
    assert_eq!(got[0].payload, Some(vec![9]));
    assert_eq!(gather(vec![vec![1, 2], vec![], vec![3]]), vec![1, 2, 3]);
}
