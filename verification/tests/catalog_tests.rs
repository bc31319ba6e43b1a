use rekha::catalog::{CatalogError, CatalogTables, CollectionRecord, DatabaseKey, NameKey};
use rekha::config::CollectionConfig;
use rekha::types::{Distance, Metadata, MetadataValue};

fn config_named(name: &str) -> CollectionConfig {
    let mut c = CollectionConfig::new(name.to_owned(), 8, Distance::Cosine);
    c.tenant = "tenant_a".to_owned();
    c.database = "db_a".to_owned();
    c
}

fn seed(catalog: &mut CatalogTables) -> CollectionRecord {
    catalog.create_tenant("tenant_a").unwrap();
    catalog.create_database("tenant_a", "db_a").unwrap();
    let cfg = config_named("coll_1");
    catalog.create_collection(&cfg).unwrap()
}

#[test]
fn catalog_roundtrip_lifecycle() {
    let mut catalog = CatalogTables::new();

    catalog.create_tenant("tenant_a").unwrap();
    catalog.create_database("tenant_a", "db_a").unwrap();
    let created = catalog.create_collection(&config_named("coll_1")).unwrap();
    assert_eq!(created.config.name, "coll_1");
    assert_eq!(created.max_seq_id, 0);
    assert_eq!(created.total_elements, 0);

    let by_name = catalog
        .get_collection("tenant_a", "db_a", "coll_1")
        .expect("collection findable by name");
    assert_eq!(by_name.config.id, created.config.id);

    let by_id = catalog
        .get_collection_by_id(created.config.id)
        .expect("collection findable by id");
    assert_eq!(by_id.config.id, created.config.id);
    assert_eq!(by_id.config.dimension, 8);
    assert_eq!(by_id.config.space, Distance::Cosine);

    let listed = catalog.list_collections("tenant_a", "db_a");
    assert_eq!(listed.len(), 1);
    assert_eq!(listed[0].config.id, created.config.id);
    assert!(catalog.list_collections("tenant_a", "other_db").is_empty());

    let mut meta = Metadata::new();
    meta.insert("dataset".to_owned(), MetadataValue::Str("wiki".to_owned()));
    catalog
        .update_collection_metadata(created.config.id, &meta)
        .unwrap();
    let updated = catalog.get_collection_by_id(created.config.id).unwrap();
    let stored = updated.config.metadata.as_ref().expect("metadata stored");
    assert_eq!(
        stored.get("dataset"),
        Some(&MetadataValue::Str("wiki".to_owned()))
    );

    catalog.advance_log_offset(created.config.id, 42).unwrap();
    catalog.advance_log_offset(created.config.id, 7).unwrap();
    let advanced = catalog.get_collection_by_id(created.config.id).unwrap();
    assert_eq!(advanced.max_seq_id, 42);

    catalog.delete_collection(created.config.id).unwrap();
    assert!(catalog.get_collection_by_id(created.config.id).is_none());
    assert!(catalog.get_collection("tenant_a", "db_a", "coll_1").is_none());
    assert!(catalog.list_collections("tenant_a", "db_a").is_empty());

    assert!(matches!(
        catalog.delete_collection(created.config.id),
        Err(CatalogError::NotFound)
    ));
}

#[test]
fn duplicate_collection_name_is_rejected() {
    let mut catalog = CatalogTables::new();
    catalog.create_tenant("tenant_a").unwrap();
    catalog.create_database("tenant_a", "db_a").unwrap();

    catalog.create_collection(&config_named("dup")).unwrap();
    let err = catalog.create_collection(&config_named("dup")).unwrap_err();
    assert!(matches!(err, CatalogError::AlreadyExists));

    let mut other_cfg = config_named("dup");
    other_cfg.database = "db_b".to_owned();
    catalog.create_database("tenant_a", "db_b").unwrap();
    catalog.create_collection(&other_cfg).unwrap();
    assert_eq!(catalog.list_collections("tenant_a", "db_a").len(), 1);
}

#[test]
fn duplicate_tenant_and_database_rejected() {
    let mut catalog = CatalogTables::new();
    catalog.create_tenant("tenant_a").unwrap();
    assert!(matches!(
        catalog.create_tenant("tenant_a"),
        Err(CatalogError::AlreadyExists)
    ));
    assert!(matches!(
        catalog.create_database("missing_tenant", "db"),
        Err(CatalogError::NotFound)
    ));
    catalog.create_database("tenant_a", "db").unwrap();
    assert!(matches!(
        catalog.create_database("tenant_a", "db"),
        Err(CatalogError::AlreadyExists)
    ));
}

#[test]
fn list_collections_all_spans_tenants_and_databases() {
    let mut catalog = CatalogTables::new();

    catalog.create_tenant("tenant_a").unwrap();
    catalog.create_database("tenant_a", "db_a").unwrap();
    catalog.create_database("tenant_a", "db_b").unwrap();
    catalog.create_tenant("tenant_b").unwrap();
    catalog.create_database("tenant_b", "db_a").unwrap();

    let c1 = config_named("coll_1"); // tenant_a/db_a
    let mut c2 = config_named("coll_2"); // tenant_a/db_b
    let mut c3 = config_named("coll_3"); // tenant_b/db_a
    c2.database = "db_b".to_owned();
    c3.tenant = "tenant_b".to_owned();
    c3.database = "db_a".to_owned();

    let r1 = catalog.create_collection(&c1).unwrap();
    let r2 = catalog.create_collection(&c2).unwrap();
    let r3 = catalog.create_collection(&c3).unwrap();

    let all = catalog.list_collections_all();
    assert_eq!(all.len(), 3);
    let ids: Vec<u128> = all.iter().map(|r| r.config.id).collect();
    let mut want = vec![r1.config.id, r2.config.id, r3.config.id];
    want.sort();
    assert_eq!(ids, want);

    // Scoped list still sees only its own scope.
    assert_eq!(catalog.list_collections("tenant_a", "db_a").len(), 1);
    assert_eq!(catalog.list_collections("tenant_b", "db_a").len(), 1);
}

#[test]
fn catalog_persists_across_reopen() {
    let mut catalog = CatalogTables::new();
    let created = seed(&mut catalog);
    catalog.advance_log_offset(created.config.id, 99).unwrap();

    let mut reopened = CatalogTables::new();
    reopened.load_tenant("tenant_a".into());
    reopened.load_database(DatabaseKey { tenant: "tenant_a".into(), name: "db_a".into() });
    for record in catalog.list_collections_all() {
        reopened.load_name(
            NameKey {
                tenant: record.config.tenant.clone(),
                database: record.config.database.clone(),
                name: record.config.name.clone(),
            },
            record.config.id,
        );
        reopened.load_collection(record);
    }
    let other = CollectionConfig::new("other".into(), 1, Distance::L2).id;
    assert!(reopened.get_collection_by_id(other).is_none());
    let record = reopened.get_collection("tenant_a", "db_a", "coll_1");
    let record = record.expect("collection survives reopen");
    assert_eq!(record.config.name, "coll_1");
    assert_eq!(record.max_seq_id, 99);
}

#[test]
fn names_must_not_be_empty() {
    let mut catalog = CatalogTables::new();
    assert_eq!(
        catalog.create_tenant("").unwrap_err().message(),
        "invalid argument: tenant name must not be empty"
    );
    assert_eq!(
        catalog.create_database("t", "").unwrap_err().message(),
        "invalid argument: database name must not be empty"
    );
    assert_eq!(
        catalog.create_collection(&config_named("")).unwrap_err().message(),
        "invalid argument: collection name must not be empty"
    );
    assert_eq!(CatalogError::NotFound.message(), "not found");
    assert_eq!(CatalogError::AlreadyExists.message(), "already exists");
    assert_eq!(CatalogError::Storage("x".into()).message(), "storage error: x");
    assert_eq!(CatalogError::Serialization("x".into()).message(), "serialization error: x");
}

#[test]
fn a_deleted_name_is_free_again() {
    let mut catalog = CatalogTables::new();
    let first = seed(&mut catalog);
    catalog.delete_collection(first.config.id).unwrap();
    let second = catalog.create_collection(&config_named("coll_1")).unwrap();
    assert_ne!(first.config.id, second.config.id);
    let found = catalog.get_collection("tenant_a", "db_a", "coll_1").unwrap();
    assert_eq!(found.config.id, second.config.id);
}

#[test]
fn changes_of_unknown_collections_are_refused() {
    let mut catalog = CatalogTables::new();
    assert_eq!(catalog.advance_log_offset(7, 1), Err(CatalogError::NotFound));
    assert_eq!(catalog.update_collection_dimension(7, 1), Err(CatalogError::NotFound));
    assert_eq!(
        catalog.update_collection_metadata(7, &Metadata::new()),
        Err(CatalogError::NotFound)
    );
    let c = seed(&mut catalog);
    catalog.update_collection_dimension(c.config.id, 16).unwrap();
    assert_eq!(catalog.get_collection_by_id(c.config.id).unwrap().config.dimension, 16);
}
