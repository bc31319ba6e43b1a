use rekha::api;
use rekha::api::{
    authorized, lookup_for, members_without, resolve_collection, shape_records, validate_add_request,
    validate_create, validate_delete_request, validate_name, validate_query_request,
    validate_update_request, validate_upsert_request, AddRequest, DeleteRequest, Header, Lookup,
    QueryRequest, UpdateRequest, UpsertRequest,
};
use rekha::chroma;
use rekha::chroma::{
    convert_metadata, flatten_metadata, validate_chroma_add, validate_chroma_query, ChromaAddRequest,
    ChromaCreateCollectionRequest, ChromaMetadataValue, ChromaQueryRequest, Creation,
};
use rekha::collection::query::ScoredPoint;
use rekha::collection::Record;
use rekha::config::CollectionConfig;
use rekha::error::EngineResult;
use rekha::json::{Json, JsonNumber};
use rekha::num::{F32, F64};
use rekha::types::{Distance, Metadata, MetadataValue};

fn one() -> Vec<u32> {
    vec![1.0f32.to_bits()]
}

fn text(s: &str) -> String {
    s.to_string()
}

fn refusal<T>(r: EngineResult<T>) -> String {
    match r {
        Ok(_) => panic!("expected a refusal"),
        Err(e) => {
            assert_eq!(e.status(), 400);
            e.message().strip_prefix("validation: ").unwrap().to_string()
        }
    }
}

fn add_request(ids: &[&str], n: usize) -> AddRequest {
    AddRequest {
        ids: ids.iter().map(|s| s.to_string()).collect(),
        embeddings: (0..n).map(|_| one()).collect(),
        metadatas: None,
        documents: None,
    }
}

#[test]
fn names_are_checked() {
    assert!(validate_name("a").is_ok());
    assert!(validate_name(&"x".repeat(512)).is_ok());
    assert_eq!(refusal(validate_name("")), "name must not be empty");
    assert_eq!(refusal(validate_name(&"x".repeat(513))), "name exceeds max length 512");
    // Lengths count bytes.
    assert_eq!(refusal(validate_name(&"é".repeat(257))), "name exceeds max length 512");
    assert!(validate_create("a", 65_536).is_ok());
    assert!(refusal(validate_create("a", 65_537)).contains("65536"));
}

#[test]
fn additions_are_checked() {
    assert!(validate_add_request(&add_request(&["a", "b"], 2)).is_ok());
    assert_eq!(refusal(validate_add_request(&add_request(&[], 0))), "ids must not be empty");
    assert_eq!(refusal(validate_add_request(&add_request(&[""], 1))), "id must not be empty");
    let long = "i".repeat(513);
    assert_eq!(
        refusal(validate_add_request(&add_request(&[&long], 1))),
        format!("id exceeds max length 512: {long}")
    );
    assert_eq!(
        refusal(validate_add_request(&add_request(&["a"], 0))),
        "embeddings must not be empty"
    );
    assert_eq!(
        refusal(validate_add_request(&add_request(&["a", "b"], 1))),
        "ids len 2 != embeddings len 1"
    );
    let many: Vec<&str> = (0..10_001).map(|_| "a").collect();
    assert_eq!(
        refusal(validate_add_request(&add_request(&many, 1))),
        "batch size 10001 exceeds max 10000"
    );
    let mut r = add_request(&["a"], 1);
    r.embeddings[0] = Vec::new();
    assert_eq!(refusal(validate_add_request(&r)), "embedding must not be empty");
    r.embeddings[0] = vec![0; 65_537];
    assert_eq!(
        refusal(validate_add_request(&r)),
        "embedding dimension 65537 exceeds max 65536"
    );
    let mut r = add_request(&["a"], 1);
    r.metadatas = Some(vec![None, None]);
    assert_eq!(refusal(validate_add_request(&r)), "metadatas len 2 != ids len 1");
    let mut r = add_request(&["a"], 1);
    r.documents = Some(vec![]);
    assert_eq!(refusal(validate_add_request(&r)), "documents len 0 != ids len 1");
}

#[test]
fn other_writes_are_checked() {
    let up = UpsertRequest {
        ids: vec![text("a")],
        embeddings: vec![one(), one()],
        metadatas: None,
        documents: None,
    };
    assert_eq!(refusal(validate_upsert_request(&up)), "ids len 1 != embeddings len 2");
    let ud = UpdateRequest { ids: vec![text("a")], metadatas: None, documents: Some(vec![None, None]) };
    assert_eq!(refusal(validate_update_request(&ud)), "documents len 2 != ids len 1");
    assert_eq!(
        refusal(validate_delete_request(&DeleteRequest { ids: vec![] })),
        "ids must not be empty"
    );
    assert!(validate_delete_request(&DeleteRequest { ids: vec![text("a")] }).is_ok());
}

fn query_request(n: usize, k: usize) -> QueryRequest {
    QueryRequest {
        query_embeddings: (0..n).map(|_| one()).collect(),
        n_results: k,
        where_filter: None,
        included: vec![],
    }
}

#[test]
fn queries_are_checked() {
    assert!(validate_query_request(&query_request(100, 1000)).is_ok());
    assert_eq!(
        refusal(validate_query_request(&query_request(0, 1))),
        "query_embeddings must not be empty"
    );
    assert_eq!(
        refusal(validate_query_request(&query_request(101, 1))),
        "query_embeddings len 101 exceeds max 100"
    );
    assert_eq!(refusal(validate_query_request(&query_request(1, 0))), "n_results must be >= 1");
    assert_eq!(
        refusal(validate_query_request(&query_request(1, 1001))),
        "n_results 1001 exceeds max 1000"
    );
    let mut r = query_request(1, 1);
    r.query_embeddings[0] = Vec::new();
    assert_eq!(refusal(validate_query_request(&r)), "query embedding must not be empty");
    r.query_embeddings[0] = vec![0; 65_537];
    assert_eq!(
        refusal(validate_query_request(&r)),
        "query embedding dimension 65537 exceeds max 65536"
    );
    assert_eq!(api::default_distance(), Distance::L2);
    assert_eq!(api::default_k(), 10);
}

fn point(id: &str, d: f32) -> ScoredPoint {
    let mut m = Metadata::new();
    m.insert(text("tag"), MetadataValue::Str(text(id)));
    ScoredPoint {
        id: text(id),
        distance: F32 { bits: d.to_bits() },
        metadata: Some(m),
        document: Some(format!("doc {id}")),
    }
}

#[test]
fn answers_hold_what_was_asked_for() {
    let all = vec![vec![point("a", 0.5), point("b", 1.5)], vec![point("c", 2.0), point("d", 3.0)]];
    let r = api::shape_query(&all, &vec![text("distances"), text("documents")]);
    assert_eq!(r.ids, vec![vec!["a", "b"], vec!["c", "d"]]);
    let d: Vec<Vec<f32>> = r
        .distances
        .unwrap()
        .iter()
        .map(|row| row.iter().map(|x| f32::from_bits(x.bits)).collect())
        .collect();
    assert_eq!(d, vec![vec![0.5, 1.5], vec![2.0, 3.0]]);
    assert!(r.metadatas.is_none());
    assert_eq!(r.documents.unwrap()[1][0].as_deref(), Some("doc c"));
    let r = api::shape_query(&all, &vec![text("metadatas")]);
    assert!(r.distances.is_none() && r.documents.is_none());
    let m = r.metadatas.unwrap();
    assert_eq!(m[0][1].as_ref().unwrap().get("tag"), Some(&MetadataValue::Str(text("b"))));
}

#[test]
fn records_are_answered_where_they_are_found() {
    let rec = |id: &str| {
        Some(Record {
            id: text(id),
            embedding: Some(one()),
            metadata: None,
            document: Some(text("d")),
            seq: 1,
        })
    };
    let r = shape_records(&vec![rec("a"), None, rec("c")], &vec![text("embeddings")]);
    assert_eq!(r.ids, vec!["a", "c"]);
    assert_eq!(r.embeddings.unwrap(), vec![one(), one()]);
    assert_eq!(r.metadatas.unwrap().len(), 3);
    let d = r.documents.unwrap();
    assert_eq!(d, vec![Some(text("d")), None, Some(text("d"))]);
    let r = shape_records(&vec![None], &vec![]);
    assert!(r.ids.is_empty());
    assert!(r.embeddings.is_none());
}

#[test]
fn keys_are_compared_where_one_is_set() {
    let key = Some(text("secret"));
    let t = |s: &str| Header::Text(text(s));
    assert!(authorized(&None, &Header::Absent, &Header::Absent));
    assert!(!authorized(&key, &Header::Absent, &Header::Absent));
    assert!(authorized(&key, &t("secret"), &Header::Absent));
    assert!(authorized(&key, &Header::Absent, &t("secret")));
    assert!(!authorized(&key, &t("secret2"), &Header::Absent));
    assert!(!authorized(&key, &t("secre"), &Header::Absent));
    // The first header that is there decides.
    assert!(!authorized(&key, &t("wrong"), &t("secret")));
    assert!(!authorized(&key, &Header::Unreadable, &t("secret")));
}

#[test]
fn collections_are_found_by_id_or_name() {
    let id = "01234567-89ab-cdef-0011-223344556677";
    assert_eq!(lookup_for(id), Lookup::ById(0x0123_4567_89ab_cdef_0011_2233_4455_6677));
    assert_eq!(lookup_for("0123456789abcdef0011223344556677"), lookup_for(id));
    assert_eq!(lookup_for("my-collection"), Lookup::ByName);
    assert_eq!(resolve_collection("x", Some(7)).unwrap(), 7);
    let e = resolve_collection("x", None).unwrap_err();
    assert_eq!(e.message(), "collection `x` not found");
    assert_eq!(e.status(), 404);
}

#[test]
fn members_leave_one_by_one() {
    assert_eq!(members_without(&vec![1, 2, 3], &vec![], 2), Some(vec![1, 3]));
    assert_eq!(members_without(&vec![1], &vec![], 1), None);
}

#[test]
fn collections_are_described() {
    let c = CollectionConfig::new(text("n"), 3, Distance::Ip);
    let r = api::collection_response(&c, 5);
    assert_eq!((r.id, r.name.as_str(), r.dimension, r.count), (c.id, "n", 3, 5));
    assert_eq!(r.distance, Distance::Ip);
    let r = chroma::chroma_response(&c);
    assert_eq!(r.id, uuid::Uuid::from_u128(c.id).to_string());
    assert_eq!(r.name, "n");
    assert_eq!(r.dimension, Some(3));
    assert_eq!((r.tenant.as_str(), r.database.as_str()), ("default_tenant", "default_database"));
}

#[test]
fn chroma_requests_are_checked() {
    let req = |ids: &[&str], n: usize| ChromaAddRequest {
        ids: ids.iter().map(|s| s.to_string()).collect(),
        embeddings: (0..n).map(|_| one()).collect(),
        metadatas: None,
        documents: None,
    };
    assert!(validate_chroma_add(&req(&["a"], 1)).is_ok());
    assert_eq!(refusal(validate_chroma_add(&req(&[], 0))), "ids must not be empty");
    assert_eq!(refusal(chroma::validate_batch(0)), "ids must not be empty");
    assert_eq!(refusal(chroma::validate_batch(10_001)), "batch size 10001 exceeds max 10000");
    assert!(chroma::validate_batch(10_000).is_ok());
    let mut r = req(&["a"], 1);
    r.documents = Some(vec![None, None]);
    assert_eq!(refusal(validate_chroma_add(&r)), "documents len 2 != ids len 1");
    let q = |n: usize, k: usize| ChromaQueryRequest {
        query_embeddings: (0..n).map(|_| one()).collect(),
        n_results: k,
        where_filter: None,
        included: vec![],
    };
    assert!(validate_chroma_query(&q(1, 10)).is_ok());
    assert!(validate_chroma_query(&q(0, 10)).is_err());
    assert!(validate_chroma_query(&q(1, 0)).is_err());
    assert_eq!(chroma::default_n_results(), 10);
    assert_eq!(chroma::pre_flight_checks().max_batch_size, 1000);
    assert!(!chroma::pre_flight_checks().supports_base64_encoding);
}

#[test]
fn chroma_metadata_is_flat() {
    let mut m = Metadata::new();
    m.insert(text("s"), MetadataValue::Str(text("x")));
    m.insert(text("b"), MetadataValue::Bool(true));
    m.insert(text("i"), MetadataValue::Int(-4));
    m.insert(text("f"), MetadataValue::Float(F64 { bits: 2.5f64.to_bits() }));
    let members = match flatten_metadata(&Some(m)).unwrap() {
        Json::Object(members) => members,
        other => panic!("expected an object, got {other:?}"),
    };
    assert_eq!(members.len(), 4);
    let of = |key: &str| &members.iter().find(|(k, _)| k == key).unwrap().1;
    assert_eq!(of("s"), &Json::Text(text("x")));
    assert_eq!(of("b"), &Json::Bool(true));
    assert_eq!(of("i"), &Json::Number(JsonNumber::Negative(-4)));
    assert_eq!(of("f"), &Json::Number(JsonNumber::Double(F64 { bits: 2.5f64.to_bits() })));
    assert!(flatten_metadata(&None).is_none());
    assert!(convert_metadata(&None).is_none());
    let given = vec![
        (text("k"), ChromaMetadataValue::Int(7)),
        (text("t"), ChromaMetadataValue::Str(text("v"))),
    ];
    let m = convert_metadata(&Some(given)).unwrap();
    assert_eq!(m.get("k"), Some(&MetadataValue::Int(7)));
    assert_eq!(m.get("t"), Some(&MetadataValue::Str(text("v"))));
}

#[test]
fn chroma_collections_are_created_or_found() {
    let req = |name: &str, again: bool| ChromaCreateCollectionRequest {
        name: text(name),
        metadata: None,
        dimension: None,
        get_or_create: again,
    };
    match chroma::create_collection(&req("n", false), "t", "d", false).unwrap() {
        Creation::New(c) => {
            assert_eq!((c.name.as_str(), c.tenant.as_str(), c.database.as_str()), ("n", "t", "d"));
            assert_eq!(c.dimension, 0);
        }
        Creation::Existing => panic!("expected a new collection"),
    }
    assert!(matches!(
        chroma::create_collection(&req("n", true), "t", "d", true).unwrap(),
        Creation::Existing
    ));
    assert_eq!(
        refusal(chroma::create_collection(&req("", true), "t", "d", false)),
        "name must not be empty"
    );
}
