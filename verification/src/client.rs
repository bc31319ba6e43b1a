//! The client of the HTTP interface: where requests go and what answers mean.

use vstd::prelude::*;
use vstd::string::*;

use crate::chars;
use crate::chars::trim_end_char;
use crate::json::{Json, JsonNumber, JsonView};
use crate::text::{from_chars, to_chars};
use crate::types::Embedding;

verus! {

/// A client: the address of the server, and the key that it asks for.
#[derive(Debug)]
pub struct RekhaClient {
    url: String,
    api_key: Option<String>,
}

/// A client as a mathematical value.
pub struct ClientView {
    pub url: Seq<char>,
    pub api_key: Option<Seq<char>>,
}

impl View for RekhaClient {
    type V = ClientView;

    closed spec fn view(&self) -> ClientView {
        ClientView {
            url: self.url@,
            api_key: match self.api_key {
                Some(k) => Some(k@),
                None => None,
            },
        }
    }
}

/// A collection as the server shows it.
#[derive(Debug, PartialEq)]
pub struct Collection {
    pub id: String,
    pub name: String,
    pub dimension: Option<usize>,
}

/// A request for a collection.
#[derive(Debug, PartialEq)]
pub struct CreateCollectionRequest {
    pub name: String,
    pub get_or_create: bool,
}

/// A request to delete records.
#[derive(Debug, PartialEq)]
pub struct DeleteRequest {
    pub ids: Vec<String>,
}

/// A request for the nearest records to some vectors.
#[derive(Debug, PartialEq)]
pub struct QueryRequest {
    pub query_embeddings: Vec<Embedding>,
    pub n_results: Option<usize>,
    pub where_filter: Option<Json>,
    pub included: Option<Vec<String>>,
}

/// A request for records.
#[derive(Debug, PartialEq)]
pub struct GetRequest {
    pub ids: Option<Vec<String>>,
    pub where_filter: Option<Json>,
    pub included: Option<Vec<String>>,
}

/// The path of the collections of a database.
pub open spec fn collections_path(tenant: Seq<char>, database: Seq<char>) -> Seq<char> {
    "/api/v2/tenants/"@ + tenant + "/databases/"@ + database + "/collections"@
}

/// The path of a collection.
pub open spec fn collection_path(tenant: Seq<char>, database: Seq<char>, name: Seq<char>) -> Seq<char> {
    collections_path(tenant, database) + "/"@ + name
}

impl RekhaClient {
    /// A client of the server at an address. Slashes at its end do not count.
    pub fn new(url: &str, api_key: Option<&str>) -> (c: RekhaClient)
        ensures
            c@.url == chars::without_end(url@, '/'),
            c@.api_key == (match api_key {
                Some(k) => Some(k@),
                None => None,
            }),
    {
        RekhaClient {
            url: from_chars(trim_end_char(&to_chars(url), '/').as_slice()),
            api_key: match api_key {
                Some(k) => Some(k.to_owned()),
                None => None,
            },
        }
    }

    /// The key that requests show in `x-chroma-token`, if there is one.
    pub fn token(&self) -> (r: Option<&str>)
        ensures
            match r {
                Some(t) => self@.api_key == Some(t@),
                None => self@.api_key is None,
            },
    {
        match &self.api_key {
            Some(k) => Some(k.as_str()),
            None => None,
        }
    }

    /// Where a heartbeat is asked for.
    pub fn heartbeat_url(&self) -> (r: String)
        ensures
            r@ == self@.url + "/api/v2/heartbeat"@,
    {
        let mut s: String = self.url.clone();
        s.append("/api/v2/heartbeat");
        s
    }

    /// Where the collections of a database are.
    pub fn collections_url(&self, tenant: &str, database: &str) -> (r: String)
        ensures
            r@ == self@.url + collections_path(tenant@, database@),
    {
        let mut s: String = self.url.clone();
        s.append("/api/v2/tenants/");
        s.append(tenant);
        s.append("/databases/");
        s.append(database);
        s.append("/collections");
        assert(s@ =~= self@.url + collections_path(tenant@, database@));
        s
    }

    /// Where a collection is.
    pub fn collection_url(&self, tenant: &str, database: &str, name: &str) -> (r: String)
        ensures
            r@ == self@.url + collection_path(tenant@, database@, name@),
    {
        let mut s: String = self.collections_url(tenant, database);
        s.append("/");
        s.append(name);
        assert(s@ =~= self@.url + collection_path(tenant@, database@, name@));
        s
    }

    /// Where an action on a collection is asked for.
    pub fn action_url(&self, tenant: &str, database: &str, name: &str, action: &str) -> (r: String)
        ensures
            r@ == self@.url + (collection_path(tenant@, database@, name@) + "/"@ + action@),
    {
        let mut s: String = self.collection_url(tenant, database, name);
        s.append("/");
        s.append(action);
        assert(s@ =~= self@.url + (collection_path(tenant@, database@, name@) + "/"@ + action@));
        s
    }
}

/// The request that makes a collection or takes the one that is there.
pub fn create_request(name: &str) -> (r: CreateCollectionRequest)
    ensures
        r.name@ == name@,
        r.get_or_create,
{
    CreateCollectionRequest { name: name.to_owned(), get_or_create: true }
}

/// The natural number under a name of a JSON value.
pub open spec fn member_natural(j: JsonView, name: Seq<char>) -> Option<u64> {
    match j.member(name) {
        Some(v) => v.natural(),
        None => None,
    }
}

fn read_member(j: &Json, name: &str) -> (r: Option<u64>)
    ensures
        r == member_natural(j@, name@),
{
    match j.member(name) {
        Some(v) => v.as_natural(),
        None => None,
    }
}

/// The heartbeat that an answer holds.
pub fn heartbeat_of(body: &Json) -> (r: Result<u64, String>)
    ensures
        match member_natural(body@, "nanosecond heartbeat"@) {
            Some(n) => r == Result::<u64, String>::Ok(n),
            None => r matches Err(m) && m@ == "Invalid heartbeat response"@,
        },
{
    match read_member(body, "nanosecond heartbeat") {
        Some(n) => Ok(n),
        None => Err("Invalid heartbeat response".to_owned()),
    }
}

/// The number of records that an answer tells: a plain number, or one under
/// `count`.
pub open spec fn told_count(body: JsonView) -> Option<u64> {
    match body.natural() {
        Some(n) => Some(n),
        None => member_natural(body, "count"@),
    }
}

/// The number of records that an answer tells.
pub fn count_of(body: &Json) -> (r: Result<u64, String>)
    ensures
        match told_count(body@) {
            Some(n) => r == Result::<u64, String>::Ok(n),
            None => r matches Err(m) && m@ == "Invalid count response"@,
        },
{
    match body.as_natural() {
        Some(n) => Ok(n),
        None => match read_member(body, "count") {
            Some(n) => Ok(n),
            None => Err("Invalid count response".to_owned()),
        },
    }
}

/// What an answer without contents means: that the action was done, or that it
/// failed with a status.
pub fn outcome_of(action: &str, success: bool, status: &str) -> (r: Result<(), String>)
    ensures
        success ==> r is Ok,
        !success ==> (r matches Err(m) && m@ == action@ + " failed: "@ + status@),
{
    if success {
        Ok(())
    } else {
        let mut s: String = action.to_owned();
        s.append(" failed: ");
        s.append(status);
        Err(s)
    }
}

/// A count is told by a natural number, or by one under `count`.
pub proof fn counts_are_told(body: JsonView, n: u64)
    ensures
        body == JsonView::Number(JsonNumber::Natural(n)) ==> told_count(body) == Some(n),
        body.member("count"@) == Some(JsonView::Number(JsonNumber::Natural(n))) ==> told_count(body) == Some(n),
        told_count(body) == Some(n) ==> body == JsonView::Number(JsonNumber::Natural(n)) || body.member(
            "count"@,
        ) == Some(JsonView::Number(JsonNumber::Natural(n))),
{
}

} // verus!
