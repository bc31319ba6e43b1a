use std::collections::BTreeMap;

use rekha::storage::{sorted_texts, Listing, LocalStorage, Storage, StorageError, TMP_SUFFIX};

/// A store whose files are kept in memory, by their paths under the root.
struct Store {
    files: std::sync::Mutex<BTreeMap<String, Vec<u8>>>,
}

fn new_store() -> Store {
    Store { files: std::sync::Mutex::new(BTreeMap::new()) }
}

fn path(key: &str) -> Result<String, StorageError> {
    Ok(LocalStorage::sanitize_key(key)?.join("/"))
}

impl Storage for Store {
    fn put(&self, key: &str, bytes: &[u8]) -> Result<(), StorageError> {
        let p = path(key)?;
        self.files.lock().unwrap().insert(p, bytes.to_vec());
        Ok(())
    }

    fn get(&self, key: &str) -> Result<Option<Vec<u8>>, StorageError> {
        let p = path(key)?;
        Ok(self.files.lock().unwrap().get(&p).cloned())
    }

    fn list(&self, prefix: &str) -> Result<Vec<String>, StorageError> {
        if let Listing::Under { key, parts } = LocalStorage::listing(prefix)? {
            assert_eq!(parts.join("/"), key);
        }
        let files: Vec<String> = self.files.lock().unwrap().keys().cloned().collect();
        LocalStorage::keys_under(prefix, &files)
    }

    fn delete(&self, key: &str) -> Result<(), StorageError> {
        let p = path(key)?;
        match self.files.lock().unwrap().remove(&p) {
            Some(_) => Ok(()),
            None => Err(LocalStorage::missing(key)),
        }
    }

    fn holds(&self, key: &str) -> Result<bool, StorageError> {
        let p = path(key)?;
        Ok(self.files.lock().unwrap().contains_key(&p))
    }
}

#[test]
fn put_get_roundtrip() {
    let store = new_store();
    store
        .put("col/abc/segments/seg-0.bin", b"hello world")
        .unwrap();
    let got = store.get("col/abc/segments/seg-0.bin").unwrap().unwrap();
    assert_eq!(got, b"hello world");
    assert!(store.holds("col/abc/segments/seg-0.bin").unwrap());
}

#[test]
fn put_overwrites_atomically() {
    let store = new_store();
    store.put("key", b"v1").unwrap();
    store.put("key", b"v2-longer").unwrap();
    assert_eq!(store.get("key").unwrap().unwrap(), b"v2-longer");
}

#[test]
fn get_missing_returns_none() {
    let store = new_store();
    assert!(store.get("does/not/exist").unwrap().is_none());
    assert!(!store.holds("does/not/exist").unwrap());
}

#[test]
fn list_prefix_and_empty() {
    let store = new_store();
    store.put("col/a/s1", b"1").unwrap();
    store.put("col/a/s2", b"2").unwrap();
    store.put("col/b/s1", b"3").unwrap();
    store.put("other/x", b"4").unwrap();

    let mut all = store.list("").unwrap();
    assert_eq!(all.len(), 4);
    all.sort();
    assert_eq!(
        all,
        vec![
            "col/a/s1".to_owned(),
            "col/a/s2".to_owned(),
            "col/b/s1".to_owned(),
            "other/x".to_owned(),
        ]
    );

    let col_a = store.list("col/a").unwrap();
    assert_eq!(col_a, vec!["col/a/s1".to_owned(), "col/a/s2".to_owned()]);
    assert_eq!(store.list("col/a/").unwrap(), col_a);
    assert!(store.list("col/z").unwrap().is_empty());
    assert_eq!(store.list("col/a/s1").unwrap(), vec!["col/a/s1".to_owned()]);
}

#[test]
fn delete_removes_object() {
    let store = new_store();
    store.put("gone", b"x").unwrap();
    store.delete("gone").unwrap();
    assert!(store.get("gone").unwrap().is_none());
    assert!(matches!(
        store.delete("gone"),
        Err(StorageError::NotFound(_))
    ));
}

#[test]
fn sanitization_rejects_unsafe_keys() {
    let store = new_store();
    for bad in [
        "../etc/passwd",
        "a/../evil",
        "../evil",
        "/abs/path",
        "a//b",
        "a/b/",
        "a/./b",
        "",
        "a\\..\\evil",
        "trailing\\",
    ] {
        assert!(
            matches!(store.put(bad, b"x"), Err(StorageError::InvalidKey(_))),
            "key `{bad}` should be rejected"
        );
        assert!(
            matches!(store.get(bad), Err(StorageError::InvalidKey(_))),
            "get key `{bad}` should be rejected"
        );
        assert!(matches!(
            store.delete(bad),
            Err(StorageError::InvalidKey(_))
        ));
    }
}

#[test]
fn sanitized_keys_stay_inside_root() {
    let store = new_store();
    store.put("safe/key.bin", b"data").unwrap();
    assert!(store.files.lock().unwrap().contains_key("safe/key.bin"));
    // The traversal attempt must not have written anywhere outside root.
    assert!(store.put("../safe/key.bin", b"data").is_err());
    assert_eq!(store.files.lock().unwrap().len(), 1);
    let listed = store.list("").unwrap();
    assert!(listed.contains(&"safe/key.bin".to_owned()));
}

#[test]
fn list_skips_leftover_temp_files() {
    let store = new_store();
    store.put("obj", b"z").unwrap();
    store
        .files
        .lock()
        .unwrap()
        .insert("dir/stale.tmp-123-456".into(), b"stale".to_vec());
    let listed = store.list("").unwrap();
    assert_eq!(listed, vec!["obj".to_owned()]);
}

/// A listing gives what was put and not deleted, in order.
#[test]
fn listings_follow_puts_and_deletes() {
    let store = new_store();
    for key in ["b/notes.tmp-draft", "a", "b/c", "b", "bc/d"] {
        store.put(key, b"1").unwrap();
    }
    store.delete("a").unwrap();
    store.put("b/c", b"2").unwrap();
    assert_eq!(store.list("").unwrap(), vec!["b", "b/c", "b/notes.tmp-draft", "bc/d"]);
    assert_eq!(store.list("b//").unwrap(), vec!["b", "b/c", "b/notes.tmp-draft"]);
    assert!(matches!(store.list("b/.."), Err(StorageError::InvalidKey(_))));
    let twice = vec!["x".to_string(), "b".to_string(), "x".to_string()];
    assert_eq!(sorted_texts(&twice), vec!["b", "x", "x"]);
}

#[test]
fn temporary_names_are_no_objects() {
    let name = LocalStorage::temporary_name("seg-0.bin", 77, 123456);
    assert_eq!(name, "seg-0.bin.tmp-77-123456");
    assert_eq!(TMP_SUFFIX, ".tmp-");
    assert!(!LocalStorage::is_object(&name));
    for name in ["seg-0.bin", "a.tmp-", "a.tmp-1", "a.tmp-1-", "a.tmp-x-1", "a.tmp--1", "tmp-1-2", "1-2", "7"] {
        assert!(LocalStorage::is_object(name), "{name}");
    }
    assert!(!LocalStorage::is_object(".tmp-1-2"));
    assert!(!LocalStorage::is_object("a.tmp-x.tmp-10-20"));
    assert_eq!(LocalStorage::key_of("a\\b/c"), "a/b/c");
}

#[test]
fn storage_errors_have_messages() {
    assert_eq!(StorageError::Io("disk".into()).message(), "io error: disk");
    assert_eq!(path("..").unwrap_err().message(), "invalid object key `..`");
    assert_eq!(LocalStorage::missing("k").message(), "object `k` not found");
    assert_eq!(LocalStorage::new("/data".into()).root(), "/data");
}

#[test]
fn keys_are_listed_in_the_order_of_their_bytes() {
    let keys: Vec<String> = ["b", "é", "a/z", "a", "Z", "a-"].iter().map(|s| s.to_string()).collect();
    let mut want = keys.clone();
    want.sort();
    assert_eq!(sorted_texts(&keys), want);
}
