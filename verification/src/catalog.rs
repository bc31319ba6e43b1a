//! The catalog: tenants, databases and collections, and the rules by which they
//! come and go. The tables are kept by the caller; each change here is one
//! transaction of theirs.

use vstd::prelude::*;
use vstd::string::*;

use crate::config::{CollectionConfig, ConfigView};
use crate::ids::CollectionId;
use crate::sort;
use crate::sort::{sorted, Ordered};
use crate::table;
use crate::table::{Table, TableKey};
use crate::text::same_text;
use crate::types::Metadata;

verus! {

/// A collection as the catalog keeps it.
#[derive(Debug)]
pub struct CollectionRecord {
    pub config: CollectionConfig,
    /// Highest sequence number that the collection's indexes cover.
    pub max_seq_id: u64,
    /// Number of elements that were ever added.
    pub total_elements: u64,
}

/// A collection of the catalog as a mathematical value.
pub struct RecordView {
    pub config: ConfigView,
    pub max_seq_id: u64,
    pub total_elements: u64,
}

impl View for CollectionRecord {
    type V = RecordView;

    open spec fn view(&self) -> RecordView {
        RecordView {
            config: self.config@,
            max_seq_id: self.max_seq_id,
            total_elements: self.total_elements,
        }
    }
}

impl Clone for CollectionRecord {
    fn clone(&self) -> (r: Self)
        ensures
            r@ == self@,
    {
        CollectionRecord {
            config: self.config.clone(),
            max_seq_id: self.max_seq_id,
            total_elements: self.total_elements,
        }
    }
}

/// Errors of the catalog.
#[derive(Debug, PartialEq)]
pub enum CatalogError {
    /// There is no such tenant, database or collection.
    NotFound,
    /// There is already such a tenant, database or collection.
    AlreadyExists,
    /// A name is malformed.
    InvalidArgument(String),
    /// The store failed, with this message.
    Storage(String),
    /// A record could not be written or read, with this message.
    Serialization(String),
}

impl CatalogError {
    /// The message that describes the error.
    pub open spec fn text(self) -> Seq<char> {
        match self {
            CatalogError::NotFound => "not found"@,
            CatalogError::AlreadyExists => "already exists"@,
            CatalogError::InvalidArgument(m) => "invalid argument: "@ + m@,
            CatalogError::Storage(m) => "storage error: "@ + m@,
            CatalogError::Serialization(m) => "serialization error: "@ + m@,
        }
    }

    /// The message that describes the error.
    pub fn message(&self) -> (r: String)
        ensures
            r@ == self.text(),
    {
        match self {
            CatalogError::NotFound => "not found".to_owned(),
            CatalogError::AlreadyExists => "already exists".to_owned(),
            CatalogError::InvalidArgument(m) => "invalid argument: ".to_owned().concat(m.as_str()),
            CatalogError::Storage(m) => "storage error: ".to_owned().concat(m.as_str()),
            CatalogError::Serialization(m) => "serialization error: ".to_owned().concat(m.as_str()),
        }
    }
}

pub type CatalogResult<T> = Result<T, CatalogError>;

/// A database of a tenant.
#[derive(Debug)]
pub struct DatabaseKey {
    pub tenant: String,
    pub name: String,
}

impl View for DatabaseKey {
    type V = (Seq<char>, Seq<char>);

    open spec fn view(&self) -> (Seq<char>, Seq<char>) {
        (self.tenant@, self.name@)
    }
}

impl TableKey for DatabaseKey {
    fn same(&self, other: &Self) -> (r: bool) {
        same_text(self.tenant.as_str(), other.tenant.as_str()) && same_text(
            self.name.as_str(),
            other.name.as_str(),
        )
    }
}

/// The name of a collection in its database.
#[derive(Debug)]
pub struct NameKey {
    pub tenant: String,
    pub database: String,
    pub name: String,
}

/// The name of a collection as a mathematical value.
pub type NameView = (Seq<char>, Seq<char>, Seq<char>);

impl View for NameKey {
    type V = (Seq<char>, Seq<char>, Seq<char>);

    open spec fn view(&self) -> (Seq<char>, Seq<char>, Seq<char>) {
        (self.tenant@, self.database@, self.name@)
    }
}

impl TableKey for NameKey {
    fn same(&self, other: &Self) -> (r: bool) {
        same_text(self.tenant.as_str(), other.tenant.as_str()) && same_text(
            self.database.as_str(),
            other.database.as_str(),
        ) && same_text(self.name.as_str(), other.name.as_str())
    }
}

/// The tables of the catalog.
pub struct CatalogTables {
    tenants: Table<String, bool>,
    databases: Table<DatabaseKey, bool>,
    collections: Table<u128, CollectionRecord>,
    names: Table<NameKey, u128>,
}

/// The tables of the catalog as a mathematical value.
#[verifier::ext_equal]
pub struct CatalogView {
    pub tenants: Set<Seq<char>>,
    pub databases: Set<(Seq<char>, Seq<char>)>,
    pub collections: Map<u128, RecordView>,
    pub names: Map<NameView, u128>,
}

/// The records of a table.
pub open spec fn record_views(m: Map<u128, CollectionRecord>) -> Map<u128, RecordView> {
    m.map_values(|r: CollectionRecord| r@)
}

impl View for CatalogTables {
    type V = CatalogView;

    closed spec fn view(&self) -> CatalogView {
        CatalogView {
            tenants: self.tenants@.dom(),
            databases: self.databases@.dom(),
            collections: record_views(self.collections@),
            names: self.names@,
        }
    }
}

/// The name of a collection.
pub open spec fn name_of(c: ConfigView) -> NameView {
    (c.tenant, c.database, c.name)
}

fn name_key(config: &CollectionConfig) -> (k: NameKey)
    ensures
        k@ == name_of(config@),
{
    NameKey {
        tenant: config.tenant.clone(),
        database: config.database.clone(),
        name: config.name.clone(),
    }
}

proof fn lemma_views_insert(m: Map<u128, CollectionRecord>, k: u128, r: CollectionRecord)
    ensures
        record_views(m.insert(k, r)) == record_views(m).insert(k, r@),
{
    assert(record_views(m.insert(k, r)) =~= record_views(m).insert(k, r@));
}

impl CatalogTables {
    /// Whether each collection is kept under its id.
    pub closed spec fn wf(self) -> bool {
        forall|id: u128| #[trigger] self.collections@.contains_key(id) ==> self.collections@[id].config.id
            == id
    }

    /// An empty catalog.
    pub fn new() -> (c: CatalogTables)
        ensures
            c.wf(),
            c@ == (CatalogView {
                tenants: Set::empty(),
                databases: Set::empty(),
                collections: Map::empty(),
                names: Map::empty(),
            }),
    {
        let c = CatalogTables {
            tenants: Table::new(),
            databases: Table::new(),
            collections: Table::new(),
            names: Table::new(),
        };
        assert(c@ =~= (CatalogView {
            tenants: Set::empty(),
            databases: Set::empty(),
            collections: Map::empty(),
            names: Map::empty(),
        }));
        c
    }

    /// Takes up a tenant that a store holds.
    pub fn load_tenant(&mut self, name: String)
        requires
            old(self).wf(),
        ensures
            final(self).wf(),
            final(self)@ == (CatalogView { tenants: old(self)@.tenants.insert(name@), ..old(self)@ }),
    {
        self.tenants.insert(name, true);
        assert(self@.tenants =~= old(self)@.tenants.insert(name@));
    }

    /// Takes up a database that a store holds.
    pub fn load_database(&mut self, key: DatabaseKey)
        requires
            old(self).wf(),
        ensures
            final(self).wf(),
            final(self)@ == (CatalogView { databases: old(self)@.databases.insert(key@), ..old(self)@ }),
    {
        self.databases.insert(key, true);
        assert(self@.databases =~= old(self)@.databases.insert(key@));
    }

    /// Takes up a collection that a store holds.
    pub fn load_collection(&mut self, record: CollectionRecord)
        requires
            old(self).wf(),
        ensures
            final(self).wf(),
            final(self)@ == (CatalogView {
                collections: old(self)@.collections.insert(record@.config.id, record@),
                ..old(self)@
            }),
    {
        proof {
            lemma_views_insert(self.collections@, record.config.id, record);
        }
        self.collections.insert(record.config.id, record);
    }

    /// Takes up a name that a store holds.
    pub fn load_name(&mut self, key: NameKey, id: CollectionId)
        requires
            old(self).wf(),
        ensures
            final(self).wf(),
            final(self)@ == (CatalogView { names: old(self)@.names.insert(key@, id), ..old(self)@ }),
    {
        self.names.insert(key, id);
    }

    /// Creates a tenant.
    pub fn create_tenant(&mut self, name: &str) -> (r: CatalogResult<()>)
        requires
            old(self).wf(),
        ensures
            final(self).wf(),
            name@.len() == 0 ==> final(self)@ == old(self)@ && (r matches Err(
                CatalogError::InvalidArgument(m),
            ) && m@ == "tenant name must not be empty"@),
            name@.len() > 0 && old(self)@.tenants.contains(name@) ==> final(self)@ == old(self)@ && r
                == CatalogResult::<()>::Err(CatalogError::AlreadyExists),
            name@.len() > 0 && !old(self)@.tenants.contains(name@) ==> r is Ok && final(self)@ == (
            CatalogView { tenants: old(self)@.tenants.insert(name@), ..old(self)@ }),
    {
        if name.is_empty() {
            return Err(CatalogError::InvalidArgument("tenant name must not be empty".to_owned()));
        }
        let key: String = name.to_owned();
        if self.tenants.contains_key(&key) {
            return Err(CatalogError::AlreadyExists);
        }
        self.load_tenant(key);
        Ok(())
    }

    /// Creates a database of a tenant.
    pub fn create_database(&mut self, tenant: &str, name: &str) -> (r: CatalogResult<()>)
        requires
            old(self).wf(),
        ensures
            final(self).wf(),
            name@.len() == 0 ==> final(self)@ == old(self)@ && (r matches Err(
                CatalogError::InvalidArgument(m),
            ) && m@ == "database name must not be empty"@),
            name@.len() > 0 && !old(self)@.tenants.contains(tenant@) ==> final(self)@ == old(self)@ && r
                == CatalogResult::<()>::Err(CatalogError::NotFound),
            name@.len() > 0 && old(self)@.tenants.contains(tenant@) && old(self)@.databases.contains(
                (tenant@, name@),
            ) ==> final(self)@ == old(self)@ && r == CatalogResult::<()>::Err(
                CatalogError::AlreadyExists,
            ),
            name@.len() > 0 && old(self)@.tenants.contains(tenant@) && !old(self)@.databases.contains(
                (tenant@, name@),
            ) ==> r is Ok && final(self)@ == (CatalogView {
                databases: old(self)@.databases.insert((tenant@, name@)),
                ..old(self)@
            }),
    {
        if name.is_empty() {
            return Err(CatalogError::InvalidArgument("database name must not be empty".to_owned()));
        }
        if !self.tenants.contains_key(&tenant.to_owned()) {
            return Err(CatalogError::NotFound);
        }
        let key = DatabaseKey { tenant: tenant.to_owned(), name: name.to_owned() };
        if self.databases.contains_key(&key) {
            return Err(CatalogError::AlreadyExists);
        }
        self.load_database(key);
        Ok(())
    }

    /// Creates a collection. Its name must be new in its database; nothing is
    /// asked of the tenant and the database.
    pub fn create_collection(&mut self, config: &CollectionConfig) -> (r: CatalogResult<
        CollectionRecord,
    >)
        requires
            old(self).wf(),
        ensures
            final(self).wf(),
            config@.name.len() == 0 ==> final(self)@ == old(self)@ && (r matches Err(
                CatalogError::InvalidArgument(m),
            ) && m@ == "collection name must not be empty"@),
            config@.name.len() > 0 && old(self)@.names.contains_key(name_of(config@)) ==> final(self)@ == old(
                self,
            )@ && (r matches Err(e) && e == CatalogError::AlreadyExists),
            config@.name.len() > 0 && !old(self)@.names.contains_key(name_of(config@)) ==> {
                let record = RecordView { config: config@, max_seq_id: 0, total_elements: 0 };
                &&& r matches Ok(c) && c@ == record
                &&& final(self)@ == (CatalogView {
                    collections: old(self)@.collections.insert(config@.id, record),
                    names: old(self)@.names.insert(name_of(config@), config@.id),
                    ..old(self)@
                })
            },
    {
        if config.name.as_str().is_empty() {
            return Err(
                CatalogError::InvalidArgument("collection name must not be empty".to_owned()),
            );
        }
        let key: NameKey = name_key(config);
        if self.names.contains_key(&key) {
            return Err(CatalogError::AlreadyExists);
        }
        let record = CollectionRecord { config: config.clone(), max_seq_id: 0, total_elements: 0 };
        self.load_collection(record.clone());
        self.load_name(key, config.id);
        Ok(record)
    }

    /// The collection of an id.
    pub fn get_collection_by_id(&self, id: CollectionId) -> (r: Option<&CollectionRecord>)
        ensures
            match r {
                Some(c) => self@.collections.contains_key(id) && c@ == self@.collections[id],
                None => !self@.collections.contains_key(id),
            },
    {
        self.collections.get(&id)
    }

    /// The collection of a name.
    pub fn get_collection(&self, tenant: &str, database: &str, name: &str) -> (r: Option<
        &CollectionRecord,
    >)
        ensures
            ({
                let key = (tenant@, database@, name@);
                match r {
                    Some(c) => self@.names.contains_key(key) && self@.collections.contains_key(
                        self@.names[key],
                    ) && c@ == self@.collections[self@.names[key]],
                    None => !(self@.names.contains_key(key) && self@.collections.contains_key(
                        self@.names[key],
                    )),
                }
            }),
    {
        let key = NameKey {
            tenant: tenant.to_owned(),
            database: database.to_owned(),
            name: name.to_owned(),
        };
        match self.names.get(&key) {
            Some(id) => self.get_collection_by_id(*id),
            None => None,
        }
    }

    /// All collections, in ascending order of their ids.
    pub fn list_collections_all(&self) -> (r: Vec<CollectionRecord>)
        requires
            self.wf(),
        ensures
            lists(r@, self@.collections, anywhere()),
    {
        let r: Vec<CollectionRecord> = self.list_where(None);
        proof {
            assert forall|c: RecordView| #[trigger] anywhere()(c) == in_scope(None)(c) by {}
            lemma_lists_alike(r@, self@.collections, in_scope(None), anywhere());
        }
        r
    }

    /// The collections of a database, in ascending order of their ids.
    pub fn list_collections(&self, tenant: &str, database: &str) -> (r: Vec<CollectionRecord>)
        requires
            self.wf(),
        ensures
            lists(r@, self@.collections, in_scope(Some((tenant@, database@)))),
    {
        self.list_where(Some((tenant, database)))
    }

    fn list_where(&self, scope: Option<(&str, &str)>) -> (r: Vec<CollectionRecord>)
        requires
            self.wf(),
        ensures
            lists(r@, self@.collections, in_scope(scope_view(scope))),
    {
        let ghost wanted = in_scope(scope_view(scope));
        let ghost all = self@.collections;
        let entries: &Vec<(u128, CollectionRecord)> = self.collections.entries();
        let mut found: Vec<CollectionRecord> = Vec::new();
        let mut i: usize = 0;
        while i < entries.len()
            invariant
                i <= entries.len(),
                self.wf(),
                all == self@.collections,
                wanted == in_scope(scope_view(scope)),
                table::keys_apart(entries@),
                self.collections@ == table::table_map(entries@),
                forall|j: int|
                    0 <= j < found@.len() ==> all.contains_key((#[trigger] found@[j]).config.id)
                        && found@[j]@ == all[found@[j].config.id] && wanted(found@[j]@),
                forall|j: int|
                    0 <= j < found@.len() ==> exists|k: int|
                        0 <= k < i && (#[trigger] entries@[k]).0 == (#[trigger] found@[j]).config.id,
                forall|j: int, k: int|
                    0 <= j < k < found@.len() ==> (#[trigger] found@[j]).config.id != (
                    #[trigger] found@[k]).config.id,
                forall|k: int|
                    0 <= k < i && wanted((#[trigger] entries@[k]).1@) ==> exists|j: int|
                        0 <= j < found@.len() && (#[trigger] found@[j]).config.id == entries@[k].0,
            decreases entries.len() - i,
        {
            let c: &CollectionRecord = &entries[i].1;
            let ghost id = entries@[i as int].0;
            proof {
                table::lemma_seated(entries@, i as int);
                assert(self.collections@.contains_key(id) && self.collections@[id] == *c);
                assert(c.config.id == id);
                assert(all.contains_key(id) && all[id] == c@);
            }
            let keep: bool = match scope {
                Some((tenant, database)) => same_text(c.config.tenant.as_str(), tenant) && same_text(
                    c.config.database.as_str(),
                    database,
                ),
                None => true,
            };
            assert(keep == wanted(c@));
            let ghost before = found@;
            if keep {
                let copy: CollectionRecord = c.clone();
                assert(copy.config.id == copy@.config.id);
                found.push(copy);
            }
            proof {
                assert forall|j: int| 0 <= j < found@.len() implies exists|k: int|
                    0 <= k < i + 1 && (#[trigger] entries@[k]).0 == (#[trigger] found@[j]).config.id by {
                    if j < before.len() {
                        let k = choose|k: int|
                            0 <= k < i && (#[trigger] entries@[k]).0 == before[j].config.id;
                        assert(found@[j] == before[j]);
                        assert(entries@[k].0 == found@[j].config.id);
                    } else {
                        assert(entries@[i as int].0 == found@[j].config.id);
                    }
                }
                assert forall|j: int, k: int| 0 <= j < k < found@.len() implies (#[trigger] found@[j]).config.id
                    != (#[trigger] found@[k]).config.id by {
                    assert(found@[j] == before[j]);
                    if k == before.len() {
                        let m = choose|m: int|
                            0 <= m < i && (#[trigger] entries@[m]).0 == before[j].config.id;
                        assert(entries@[m].0 == before[j].config.id);
                        assert(entries@[m].0@ != entries@[i as int].0@);
                    } else {
                        assert(found@[k] == before[k]);
                    }
                }
                assert forall|k: int| 0 <= k < i + 1 && wanted((#[trigger] entries@[k]).1@) implies exists|j: int|
                    0 <= j < found@.len() && (#[trigger] found@[j]).config.id == entries@[k].0 by {
                    if k < i {
                        let j = choose|j: int|
                            0 <= j < before.len() && (#[trigger] before[j]).config.id == entries@[k].0;
                        assert(found@[j] == before[j]);
                    } else {
                        assert(found@[before.len() as int].config.id == id);
                    }
                }
            }
            i += 1;
        }
        let ghost loose = found@;
        let r: Vec<CollectionRecord> = sorted(found);
        proof {
            assert(loose.no_duplicates()) by {
                assert forall|j: int, k: int|
                    0 <= j < loose.len() && 0 <= k < loose.len() && j != k implies loose[j] != loose[k] by {
                    if j < k {
                        assert(loose[j].config.id != loose[k].config.id);
                    } else {
                        assert(loose[k].config.id != loose[j].config.id);
                    }
                }
            }
            sort::lemma_same_members(loose, r@);
            assert forall|i: int| 0 <= i < r@.len() implies all.contains_key((#[trigger] r@[i]).config.id)
                && r@[i]@ == all[r@[i].config.id] && wanted(r@[i]@) by {
                assert(loose.contains(r@[i]));
            }
            assert forall|i: int, j: int| 0 <= i < j < r@.len() implies (#[trigger] r@[i]).config.id < (
            #[trigger] r@[j]).config.id by {
                assert(r@[i].before(r@[j]));
                assert(r@[i] != r@[j]);
                assert(loose.contains(r@[i]) && loose.contains(r@[j]));
                let a = choose|a: int| 0 <= a < loose.len() && loose[a] == r@[i];
                let b = choose|b: int| 0 <= b < loose.len() && loose[b] == r@[j];
                if a < b {
                    assert(loose[a].config.id != loose[b].config.id);
                } else {
                    assert(loose[b].config.id != loose[a].config.id);
                }
            }
            assert forall|id: u128| #[trigger] all.contains_key(id) && wanted(all[id]) implies exists|i: int|
                0 <= i < r@.len() && (#[trigger] r@[i]).config.id == id by {
                assert(self.collections@.contains_key(id));
                assert(table::keyed(entries@, id));
                let k = table::seat(entries@, id);
                assert(entries@[k].0 == id);
                table::lemma_seated(entries@, k);
                assert(wanted(entries@[k].1@));
                let j = choose|j: int|
                    0 <= j < loose.len() && (#[trigger] loose[j]).config.id == entries@[k].0;
                assert(r@.contains(loose[j]));
                let i = choose|i: int| 0 <= i < r@.len() && r@[i] == loose[j];
                assert(r@[i].config.id == id);
            }
        }
        r
    }

    /// Replaces a record by one that a change makes of it.
    fn replace(&mut self, id: CollectionId, record: CollectionRecord)
        requires
            old(self).wf(),
            record@.config.id == id,
        ensures
            final(self).wf(),
            final(self)@ == (CatalogView {
                collections: old(self)@.collections.insert(id, record@),
                ..old(self)@
            }),
    {
        self.load_collection(record);
    }

    /// Replaces the metadata of a collection.
    pub fn update_collection_metadata(&mut self, id: CollectionId, metadata: &Metadata) -> (r:
        CatalogResult<()>)
        requires
            old(self).wf(),
        ensures
            final(self).wf(),
            changed(
                old(self)@,
                id,
                |c: RecordView|
                    RecordView { config: ConfigView { metadata: Some(metadata@), ..c.config }, ..c },
                final(self)@,
                r,
            ),
    {
        match self.collections.get(&id) {
            Some(c) => {
                assert(self@.collections[id] == c@);
                let mut record: CollectionRecord = c.clone();
                record.config.metadata = Some(metadata.clone());
                self.replace(id, record);
                Ok(())
            },
            None => Err(CatalogError::NotFound),
        }
    }

    /// Takes over the dimension of a collection once it is known.
    pub fn update_collection_dimension(&mut self, id: CollectionId, dimension: usize) -> (r:
        CatalogResult<()>)
        requires
            old(self).wf(),
        ensures
            final(self).wf(),
            changed(
                old(self)@,
                id,
                |c: RecordView|
                    RecordView { config: ConfigView { dimension, ..c.config }, ..c },
                final(self)@,
                r,
            ),
    {
        match self.collections.get(&id) {
            Some(c) => {
                assert(self@.collections[id] == c@);
                let mut record: CollectionRecord = c.clone();
                record.config.dimension = dimension;
                self.replace(id, record);
                Ok(())
            },
            None => Err(CatalogError::NotFound),
        }
    }

    /// Moves the watermark of a collection up; it never goes back.
    pub fn advance_log_offset(&mut self, id: CollectionId, seq: u64) -> (r: CatalogResult<()>)
        requires
            old(self).wf(),
        ensures
            final(self).wf(),
            changed(
                old(self)@,
                id,
                |c: RecordView|
                    RecordView {
                        max_seq_id: if c.max_seq_id < seq {
                            seq
                        } else {
                            c.max_seq_id
                        },
                        ..c
                    },
                final(self)@,
                r,
            ),
    {
        match self.collections.get(&id) {
            Some(c) => {
                assert(self@.collections[id] == c@);
                let mut record: CollectionRecord = c.clone();
                if record.max_seq_id < seq {
                    record.max_seq_id = seq;
                }
                self.replace(id, record);
                Ok(())
            },
            None => Err(CatalogError::NotFound),
        }
    }

    /// Deletes a collection, and its name.
    pub fn delete_collection(&mut self, id: CollectionId) -> (r: CatalogResult<()>)
        requires
            old(self).wf(),
        ensures
            final(self).wf(),
            old(self)@.collections.contains_key(id) ==> r is Ok && final(self)@ == (CatalogView {
                collections: old(self)@.collections.remove(id),
                names: old(self)@.names.remove(name_of(old(self)@.collections[id].config)),
                ..old(self)@
            }),
            !old(self)@.collections.contains_key(id) ==> r == CatalogResult::<()>::Err(
                CatalogError::NotFound,
            ) && final(self)@ == old(self)@,
    {
        let key: NameKey = match self.collections.get(&id) {
            Some(c) => {
                assert(self@.collections[id] == c@);
                name_key(&c.config)
            },
            None => {
                return Err(CatalogError::NotFound);
            },
        };
        let ghost before = self.collections@;
        self.collections.remove(&id);
        self.names.remove(&key);
        assert(record_views(before.remove(id)) =~= record_views(before).remove(id));
        Ok(())
    }
}

/// What a change makes of the record of an id.
pub open spec fn changed(
    before: CatalogView,
    id: u128,
    change: spec_fn(RecordView) -> RecordView,
    after: CatalogView,
    r: CatalogResult<()>,
) -> bool {
    if before.collections.contains_key(id) {
        r is Ok && after == (CatalogView {
            collections: before.collections.insert(id, change(before.collections[id])),
            ..before
        })
    } else {
        r == CatalogResult::<()>::Err(CatalogError::NotFound) && after == before
    }
}

/// Every collection.
pub open spec fn anywhere() -> spec_fn(RecordView) -> bool {
    |c: RecordView| true
}

/// A tenant and database as mathematical values.
pub open spec fn scope_view(scope: Option<(&str, &str)>) -> Option<(Seq<char>, Seq<char>)> {
    match scope {
        Some(s) => Some((s.0@, s.1@)),
        None => None,
    }
}

/// The collections of a tenant's database, or all.
pub open spec fn in_scope(scope: Option<(Seq<char>, Seq<char>)>) -> spec_fn(RecordView) -> bool {
    |c: RecordView| scope matches Some(s) ==> c.config.tenant == s.0 && c.config.database == s.1
}

/// Whether a list is of all collections that are wanted, in ascending order of
/// the ids.
pub open spec fn lists(
    r: Seq<CollectionRecord>,
    all: Map<u128, RecordView>,
    wanted: spec_fn(RecordView) -> bool,
) -> bool {
    &&& forall|i: int|
        0 <= i < r.len() ==> all.contains_key((#[trigger] r[i]).config.id) && r[i]@ == all[r[i].config.id]
            && wanted(r[i]@)
    &&& forall|i: int, j: int|
        0 <= i < j < r.len() ==> (#[trigger] r[i]).config.id < (#[trigger] r[j]).config.id
    &&& forall|id: u128|
        #[trigger] all.contains_key(id) && wanted(all[id]) ==> exists|i: int|
            0 <= i < r.len() && (#[trigger] r[i]).config.id == id
}

proof fn lemma_lists_alike(
    r: Seq<CollectionRecord>,
    all: Map<u128, RecordView>,
    a: spec_fn(RecordView) -> bool,
    b: spec_fn(RecordView) -> bool,
)
    requires
        lists(r, all, a),
        forall|c: RecordView| #[trigger] b(c) == a(c),
    ensures
        lists(r, all, b),
{
    assert forall|id: u128| #[trigger] all.contains_key(id) && b(all[id]) implies exists|i: int|
        0 <= i < r.len() && (#[trigger] r[i]).config.id == id by {
        assert(a(all[id]));
    }
}

impl Ordered for CollectionRecord {
    open spec fn before(self, other: Self) -> bool {
        self.config.id <= other.config.id
    }

    proof fn order_is_total(a: Self, b: Self) {
    }

    proof fn order_is_transitive(a: Self, b: Self, c: Self) {
    }

    fn goes_before(&self, other: &Self) -> (r: bool) {
        self.config.id <= other.config.id
    }
}

// ---------------------------------------------------------------------------
// Laws
// ---------------------------------------------------------------------------

/// Whether every name leads to a collection of that name, and every collection
/// is found by its name.
pub open spec fn names_agree(c: CatalogView) -> bool {
    &&& forall|n: NameView|
        #[trigger] c.names.contains_key(n) ==> c.collections.contains_key(c.names[n]) && name_of(
            c.collections[c.names[n]].config,
        ) == n && c.collections[c.names[n]].config.id == c.names[n]
    &&& forall|id: u128|
        #[trigger] c.collections.contains_key(id) ==> c.names.contains_key(
            name_of(c.collections[id].config),
        ) && c.names[name_of(c.collections[id].config)] == id
}

/// A collection that is created under a new id keeps names and collections in
/// agreement, and no two collections of a database share a name.
pub proof fn creation_keeps_names(c: CatalogView, config: ConfigView)
    requires
        names_agree(c),
        !c.names.contains_key(name_of(config)),
        !c.collections.contains_key(config.id),
    ensures
        names_agree(
            (CatalogView {
                collections: c.collections.insert(
                    config.id,
                    RecordView { config, max_seq_id: 0, total_elements: 0 },
                ),
                names: c.names.insert(name_of(config), config.id),
                ..c
            }),
        ),
{
}

/// A collection that is deleted frees its name, and the others stay found.
pub proof fn deletion_frees_the_name(c: CatalogView, id: u128)
    requires
        names_agree(c),
        c.collections.contains_key(id),
    ensures
        ({
            let after = CatalogView {
                collections: c.collections.remove(id),
                names: c.names.remove(name_of(c.collections[id].config)),
                ..c
            };
            &&& names_agree(after)
            &&& !after.names.contains_key(name_of(c.collections[id].config))
        }),
{
    let after = CatalogView {
        collections: c.collections.remove(id),
        names: c.names.remove(name_of(c.collections[id].config)),
        ..c
    };
    assert forall|n: NameView| #[trigger] after.names.contains_key(n) implies after.collections.contains_key(
        after.names[n],
    ) by {
        assert(c.names.contains_key(n));
    }
    assert forall|k: u128| #[trigger] after.collections.contains_key(k) implies after.names.contains_key(
        name_of(after.collections[k].config),
    ) && after.names[name_of(after.collections[k].config)] == k by {
        assert(c.collections.contains_key(k));
    }
}

/// In a database no two collections share a name.
pub proof fn names_are_unique(c: CatalogView, a: u128, b: u128)
    requires
        names_agree(c),
        c.collections.contains_key(a),
        c.collections.contains_key(b),
        name_of(c.collections[a].config) == name_of(c.collections[b].config),
    ensures
        a == b,
{
}

/// Two collections have the same name when they have the same tenant, database
/// and own name, and only then.
pub proof fn names_are_within_databases(a: ConfigView, b: ConfigView)
    ensures
        name_of(a) == name_of(b) <==> a.tenant == b.tenant && a.database == b.database && a.name == b.name,
{
}

/// A list of a tenant's database holds every collection of it, and no other; a
/// list without a database holds every collection. The ids ascend.
pub proof fn lists_are_of_their_database(
    r: Seq<CollectionRecord>,
    all: Map<u128, RecordView>,
    scope: Option<(Seq<char>, Seq<char>)>,
    id: u128,
)
    requires
        lists(r, all, in_scope(scope)),
    ensures
        (exists|i: int| 0 <= i < r.len() && (#[trigger] r[i]).config.id == id) <==> all.contains_key(id) && (
        scope matches Some(s) ==> all[id].config.tenant == s.0 && all[id].config.database == s.1),
        forall|i: int| 0 <= i < r.len() ==> r[i]@ == all[(#[trigger] r[i]).config.id],
        forall|i: int, j: int|
            0 <= i < j < r.len() ==> (#[trigger] r[i]).config.id < (#[trigger] r[j]).config.id,
{
    if exists|i: int| 0 <= i < r.len() && (#[trigger] r[i]).config.id == id {
        let i = choose|i: int| 0 <= i < r.len() && (#[trigger] r[i]).config.id == id;
        assert(r[i]@ == all[r[i].config.id] && in_scope(scope)(r[i]@));
    }
    if all.contains_key(id) && (scope matches Some(s) ==> all[id].config.tenant == s.0
        && all[id].config.database == s.1) {
        assert(in_scope(scope)(all[id]));
    }
}

/// A list of all collections holds each of them.
pub proof fn lists_of_all_hold_all(r: Seq<CollectionRecord>, all: Map<u128, RecordView>, id: u128)
    requires
        lists(r, all, anywhere()),
        all.contains_key(id),
    ensures
        exists|i: int| 0 <= i < r.len() && (#[trigger] r[i]).config.id == id && r[i]@ == all[id],
{
    assert(anywhere()(all[id]));
    let i = choose|i: int| 0 <= i < r.len() && (#[trigger] r[i]).config.id == id;
    assert(r[i]@ == all[r[i].config.id]);
}

/// A change of a record is one of that record, and of nothing else; where there
/// is no record, nothing changes and the answer says so.
pub proof fn changes_are_of_one_record(
    before: CatalogView,
    id: u128,
    change: spec_fn(RecordView) -> RecordView,
    after: CatalogView,
    r: CatalogResult<()>,
    other: u128,
)
    requires
        changed(before, id, change, after, r),
    ensures
        r is Ok <==> before.collections.contains_key(id),
        r is Err ==> after == before && r == CatalogResult::<()>::Err(CatalogError::NotFound),
        r is Ok ==> after.collections.contains_key(id) && after.collections[id] == change(
            before.collections[id],
        ),
        after.names == before.names && after.tenants == before.tenants && after.databases
            == before.databases,
        other != id ==> (after.collections.contains_key(other) <==> before.collections.contains_key(other))
            && (before.collections.contains_key(other) ==> after.collections[other]
            == before.collections[other]),
{
}

} // verus!
