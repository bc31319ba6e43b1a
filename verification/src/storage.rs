//! Object storage: keys, and how they become places under a root.

use vstd::prelude::*;
use vstd::string::*;

use crate::chars;
use crate::chars::{part, split, starts_with, trim_end_char};
use crate::command::is_word;
use crate::sort;
use crate::sort::{sorted, Ordered};
use crate::text;
use crate::text::{comes_first, decimal, from_chars, glue, same_text, to_chars};

verus! {

/// Errors of an object store.
#[derive(Debug, PartialEq)]
pub enum StorageError {
    /// The store failed, with this message.
    Io(String),
    /// The key is malformed.
    InvalidKey(String),
    /// There is no such object.
    NotFound(String),
}

impl StorageError {
    /// The message that describes the error.
    pub open spec fn text(self) -> Seq<char> {
        match self {
            StorageError::Io(m) => "io error: "@ + m@,
            StorageError::InvalidKey(k) => "invalid object key `"@ + k@ + "`"@,
            StorageError::NotFound(k) => "object `"@ + k@ + "` not found"@,
        }
    }

    /// The message that describes the error.
    pub fn message(&self) -> (r: String)
        ensures
            r@ == self.text(),
    {
        match self {
            StorageError::Io(m) => {
                let mut s: String = "io error: ".to_owned();
                s.append(m.as_str());
                s
            },
            StorageError::InvalidKey(k) => glue("invalid object key `", k.as_str(), "`"),
            StorageError::NotFound(k) => glue("object `", k.as_str(), "` not found"),
        }
    }
}

/// A store of objects under keys.
pub trait Storage {
    /// Puts an object under a key, in place of the one that was there.
    fn put(&self, key: &str, bytes: &[u8]) -> Result<(), StorageError>;

    /// The object under a key, if there is one.
    fn get(&self, key: &str) -> Result<Option<Vec<u8>>, StorageError>;

    /// The keys under a prefix.
    fn list(&self, prefix: &str) -> Result<Vec<String>, StorageError>;

    /// Removes the object under a key.
    fn delete(&self, key: &str) -> Result<(), StorageError>;

    /// Whether there is an object under a key.
    fn holds(&self, key: &str) -> Result<bool, StorageError>;
}

/// Part of the name of every file that is still being written.
pub const TMP_SUFFIX: &'static str = ".tmp-";

/// Whether a text can be a part of a key.
pub open spec fn valid_part(p: Seq<char>) -> bool {
    &&& p.len() > 0
    &&& p != "."@
    &&& p != ".."@
    &&& !p.contains('\\')
    &&& !p.contains('\0')
}

/// Whether a text is a key: parts between slashes, none of which leads out of
/// the root.
pub open spec fn valid_key(key: Seq<char>) -> bool {
    let parts = chars::pieces(key, '/');
    &&& key.len() > 0
    &&& key[0] != '/'
    &&& forall|i: int| 0 <= i < parts.len() ==> valid_part(#[trigger] parts[i])
}

fn has_char(s: &Vec<char>, c: char) -> (r: bool)
    ensures
        r == s@.contains(c),
{
    let mut i: usize = 0;
    while i < s.len()
        invariant
            i <= s.len(),
            forall|j: int| 0 <= j < i ==> #[trigger] s@[j] != c,
        decreases s.len() - i,
    {
        if s[i] == c {
            return true;
        }
        i += 1;
    }
    false
}

/// Whether a name is that of a file that is still being written, with the first
/// number from `e` on and the second behind `d`.
pub open spec fn temporary_at(name: Seq<char>, e: int, d: int) -> bool {
    &&& 5 <= e < d < name.len() - 1
    &&& name.subrange(e - 5, e) == TMP_SUFFIX@
    &&& forall|i: int| e <= i < d ==> chars::is_digit(#[trigger] name[i])
    &&& name[d] == '-'
    &&& forall|i: int| d < i < name.len() ==> chars::is_digit(#[trigger] name[i])
}

/// Whether a name is that of a file that is still being written: it ends in the
/// mark of such files and two numbers.
pub open spec fn temporary(name: Seq<char>) -> bool {
    exists|e: int, d: int| temporary_at(name, e, d)
}

/// The last character before a place that is no digit.
fn last_other(s: &Vec<char>, end: usize) -> (r: Option<usize>)
    requires
        end <= s.len(),
    ensures
        match r {
            Some(i) => i < end && !chars::is_digit(s@[i as int]) && forall|j: int|
                i < j < end ==> chars::is_digit(#[trigger] s@[j]),
            None => forall|j: int| 0 <= j < end ==> chars::is_digit(#[trigger] s@[j]),
        },
{
    let mut i: usize = end;
    while i > 0
        invariant
            i <= end <= s.len(),
            forall|j: int| i <= j < end ==> chars::is_digit(#[trigger] s@[j]),
        decreases i,
    {
        i -= 1;
        if !('0' <= s[i] && s[i] <= '9') {
            return Some(i);
        }
    }
    None
}

proof fn lemma_decimal_digits(n: nat)
    ensures
        text::decimal_text(n).len() > 0,
        forall|i: int| 0 <= i < text::decimal_text(n).len() ==> chars::is_digit(#[trigger] text::decimal_text(n)[i]),
    decreases n,
{
    if n >= 10 {
        lemma_decimal_digits(n / 10);
    }
}

/// The last part of a key.
pub open spec fn file_name(key: Seq<char>) -> Seq<char> {
    chars::pieces(key, '/').last()
}

/// Whether a key lies under a prefix: it is the prefix, or goes on behind it
/// with a slash. All keys lie under the empty prefix.
pub open spec fn under(key: Seq<char>, prefix: Seq<char>) -> bool {
    prefix.len() == 0 || key == prefix || chars::begins(key, prefix.push('/'))
}

/// Whether a listing under a prefix gives a key: it lies there, and its file is
/// not one that is still being written, unless the prefix names it.
pub open spec fn listed(key: Seq<char>, prefix: Seq<char>) -> bool {
    under(key, prefix) && (key == prefix || !temporary(file_name(key)))
}

/// The keys of files that a listing gives.
pub open spec fn listed_keys(files: Seq<Seq<char>>, prefix: Seq<char>) -> Seq<Seq<char>>
    decreases files.len(),
{
    if files.len() == 0 {
        Seq::empty()
    } else {
        let before = listed_keys(files.drop_last(), prefix);
        let key = slashed(files.last());
        if listed(key, prefix) {
            before.push(key)
        } else {
            before
        }
    }
}

/// Whether keys stand in order.
pub open spec fn in_order(keys: Seq<Seq<char>>) -> bool {
    forall|i: int, j: int|
        0 <= i < j < keys.len() ==> text::not_after(#[trigger] keys[i], #[trigger] keys[j])
}

/// Whether keys are the listing of files under a prefix: in order, each as often
/// as there is a file for it.
pub open spec fn lists(keys: Seq<Seq<char>>, files: Seq<Seq<char>>, prefix: Seq<char>) -> bool {
    in_order(keys) && keys.to_multiset() == listed_keys(files, prefix).to_multiset()
}

fn shows(key: &String, prefix: &Vec<char>) -> (r: bool)
    ensures
        r == listed(key@, prefix@),
{
    let k: Vec<char> = to_chars(key.as_str());
    let same: bool = same_text(key.as_str(), from_chars(prefix.as_slice()).as_str());
    if same {
        return true;
    }
    let mut dir: Vec<char> = prefix.clone();
    dir.push('/');
    assert(dir@ =~= prefix@.push('/'));
    if prefix.len() > 0 && !starts_with(&k, &dir) {
        return false;
    }
    let parts: Vec<Vec<char>> = split(&k, '/');
    assert(chars::char_views(parts@).last() == parts@[parts@.len() - 1]@);
    LocalStorage::is_object(from_chars(parts[parts.len() - 1].as_slice()).as_str())
}

/// An object store in a directory.
#[derive(Debug, PartialEq)]
pub struct LocalStorage {
    root: String,
}

impl View for LocalStorage {
    type V = Seq<char>;

    closed spec fn view(&self) -> Seq<char> {
        self.root@
    }
}

/// The files that a listing is of.
#[derive(Debug, PartialEq)]
pub enum Listing {
    /// All under the root.
    All,
    /// Those under these directories of the root, or the one file there.
    Under { key: String, parts: Vec<String> },
}

impl LocalStorage {
    /// A store in a directory. The directory need not exist yet.
    pub fn new(root: String) -> (s: LocalStorage)
        ensures
            s@ == root@,
    {
        LocalStorage { root }
    }

    /// The directory.
    pub fn root(&self) -> (r: &str)
        ensures
            r@ == self@,
    {
        self.root.as_str()
    }

    /// The parts of a key, which lead to its place under the root, or the error
    /// for a text that is none.
    pub fn sanitize_key(key: &str) -> (r: Result<Vec<String>, StorageError>)
        ensures
            match r {
                Ok(parts) => valid_key(key@) && text::views(parts@) == chars::pieces(key@, '/'),
                Err(e) => !valid_key(key@) && (e matches StorageError::InvalidKey(k) && k@ == key@),
            },
    {
        let c: Vec<char> = to_chars(key);
        if c.len() == 0 || c[0] == '/' {
            return Err(StorageError::InvalidKey(key.to_owned()));
        }
        let parts: Vec<Vec<char>> = split(&c, '/');
        let ghost all = chars::pieces(key@, '/');
        let mut out: Vec<String> = Vec::new();
        let mut i: usize = 0;
        while i < parts.len()
            invariant
                i <= parts.len(),
                all == chars::char_views(parts@),
                all == chars::pieces(key@, '/'),
                out@.len() == i,
                forall|j: int| 0 <= j < i ==> (#[trigger] out@[j])@ == all[j] && valid_part(all[j]),
            decreases parts.len() - i,
        {
            let p: &Vec<char> = &parts[i];
            assert(all[i as int] == p@);
            if p.len() == 0 || is_word(p, ".") || is_word(p, "..") || has_char(p, '\\') || has_char(
                p,
                '\0',
            ) {
                assert(!valid_part(all[i as int]));
                return Err(StorageError::InvalidKey(key.to_owned()));
            }
            out.push(from_chars(p.as_slice()));
            i += 1;
        }
        proof {
            assert(all.len() == parts@.len());
            assert forall|j: int| 0 <= j < all.len() implies valid_part(#[trigger] all[j]) by {
                assert(out@[j]@ == all[j]);
            }
            assert(text::views(out@) =~= all);
        }
        Ok(out)
    }

    /// What a listing of the keys under a prefix is of. Slashes at the end of
    /// the prefix do not count.
    pub fn listing(prefix: &str) -> (r: Result<Listing, StorageError>)
        ensures
            ({
                let t = chars::without_end(prefix@, '/');
                match r {
                    Ok(Listing::All) => t.len() == 0,
                    Ok(Listing::Under { key, parts }) => t.len() > 0 && valid_key(t) && key@ == t
                        && text::views(parts@) == chars::pieces(t, '/'),
                    Err(e) => t.len() > 0 && !valid_key(t) && (e matches StorageError::InvalidKey(k)
                        && k@ == t),
                }
            }),
    {
        let t: Vec<char> = trim_end_char(&to_chars(prefix), '/');
        if t.len() == 0 {
            return Ok(Listing::All);
        }
        let key: String = from_chars(t.as_slice());
        match LocalStorage::sanitize_key(key.as_str()) {
            Ok(parts) => Ok(Listing::Under { key, parts }),
            Err(e) => Err(e),
        }
    }

    /// Whether a file is an object, and not one that is still being written.
    pub fn is_object(name: &str) -> (r: bool)
        ensures
            r == !temporary(name@),
    {
        proof {
            reveal_strlit(".tmp-");
        }
        let c: Vec<char> = to_chars(name);
        match last_other(&c, c.len()) {
            Some(b) => {
                if c[b] != '-' || b + 1 == c.len() {
                    assert forall|e: int, d: int| !#[trigger] temporary_at(name@, e, d) by {
                        assert(temporary_at(name@, e, d) ==> d == b);
                    }
                    return true;
                }
                match last_other(&c, b) {
                    Some(e) => {
                        if e < 4 || e + 1 == b {
                            assert forall|x: int, d: int| !#[trigger] temporary_at(name@, x, d) by {
                                assert(temporary_at(name@, x, d) ==> d == b);
                                assert(temporary_at(name@, x, d) ==> name@.subrange(x - 5, x)[4] == name@[x - 1]);
                                assert(temporary_at(name@, x, d) ==> x == e + 1);
                            }
                            return true;
                        }
                        let marked: bool = is_word(&part(&c, e - 4, e + 1), TMP_SUFFIX);
                        proof {
                            if marked {
                                assert(temporary_at(name@, e + 1, b as int));
                            } else {
                                assert forall|x: int, d: int| !#[trigger] temporary_at(name@, x, d) by {
                                    assert(temporary_at(name@, x, d) ==> d == b);
                                    assert(temporary_at(name@, x, d) ==> name@.subrange(x - 5, x)[4]
                                        == name@[x - 1]);
                                    assert(temporary_at(name@, x, d) ==> x == e + 1);
                                }
                            }
                        }
                        !marked
                    },
                    None => {
                        assert forall|x: int, d: int| !#[trigger] temporary_at(name@, x, d) by {
                            assert(temporary_at(name@, x, d) ==> d == b);
                            assert(temporary_at(name@, x, d) ==> name@.subrange(x - 5, x)[4] == name@[x - 1]);
                        }
                        true
                    },
                }
            },
            None => true,
        }
    }

    /// The name that a file has while it is being written.
    pub fn temporary_name(file: &str, process: u32, nonce: u64) -> (r: String)
        ensures
            r@ == file@ + TMP_SUFFIX@ + text::decimal_text(process as nat) + "-"@ + text::decimal_text(
                nonce as nat,
            ),
            temporary(r@),
    {
        let mut s: String = file.to_owned();
        s.append(TMP_SUFFIX);
        s.append(decimal(process as u64).as_str());
        s.append("-");
        s.append(decimal(nonce).as_str());
        proof {
            reveal_strlit(".tmp-");
            reveal_strlit("-");
            let p = text::decimal_text(process as nat);
            let q = text::decimal_text(nonce as nat);
            lemma_decimal_digits(process as nat);
            lemma_decimal_digits(nonce as nat);
            let e = file@.len() as int + 5;
            let d = e + p.len();
            assert(s@.subrange(e - 5, e) =~= TMP_SUFFIX@);
            assert forall|i: int| e <= i < d implies chars::is_digit(#[trigger] s@[i]) by {
                assert(s@[i] == p[i - e]);
            }
            assert forall|i: int| d < i < s@.len() implies chars::is_digit(#[trigger] s@[i]) by {
                assert(s@[i] == q[i - d - 1]);
            }
            assert(temporary_at(s@, e, d));
        }
        s
    }

    /// The key of the object in a file, by the file's path under the root.
    pub fn key_of(path: &str) -> (r: String)
        ensures
            r@ == slashed(path@),
    {
        let c: Vec<char> = to_chars(path);
        let mut out: Vec<char> = Vec::new();
        let mut i: usize = 0;
        while i < c.len()
            invariant
                i <= c.len(),
                c@ == path@,
                out@ == slashed(c@.take(i as int)),
            decreases c.len() - i,
        {
            if c[i] == '\\' {
                out.push('/');
            } else {
                out.push(c[i]);
            }
            i += 1;
            assert(out@ =~= slashed(c@.take(i as int)));
        }
        assert(c@.take(c@.len() as int) =~= c@);
        from_chars(out.as_slice())
    }

    /// The keys that a listing under a prefix gives, in order, where the files
    /// under the root have the given paths.
    pub fn keys_under(prefix: &str, files: &Vec<String>) -> (r: Result<Vec<String>, StorageError>)
        ensures
            ({
                let t = chars::without_end(prefix@, '/');
                match r {
                    Ok(keys) => (t.len() == 0 || valid_key(t)) && lists(
                        text::views(keys@),
                        text::views(files@),
                        t,
                    ),
                    Err(e) => t.len() > 0 && !valid_key(t) && (e matches StorageError::InvalidKey(k)
                        && k@ == t),
                }
            }),
    {
        match LocalStorage::listing(prefix) {
            Ok(_) => {},
            Err(e) => {
                return Err(e);
            },
        }
        let t: Vec<char> = trim_end_char(&to_chars(prefix), '/');
        let ghost all = text::views(files@);
        let mut keys: Vec<String> = Vec::new();
        let mut i: usize = 0;
        assert(all.take(0) =~= Seq::empty());
        assert(text::views(keys@) =~= Seq::empty());
        while i < files.len()
            invariant
                i <= files.len(),
                all == text::views(files@),
                t@ == chars::without_end(prefix@, '/'),
                text::views(keys@) == listed_keys(all.take(i as int), t@),
            decreases files.len() - i,
        {
            proof {
                assert(all.take(i + 1).drop_last() =~= all.take(i as int));
                assert(all.take(i + 1).last() == files@[i as int]@);
            }
            let key: String = LocalStorage::key_of(files[i].as_str());
            if shows(&key, &t) {
                let ghost before = text::views(keys@);
                let ghost k = key@;
                keys.push(key);
                assert(text::views(keys@) =~= before.push(k));
            }
            i += 1;
        }
        assert(all.take(i as int) =~= all);
        Ok(sorted_texts(&keys))
    }

    /// The error of a removal that found no object.
    pub fn missing(key: &str) -> (e: StorageError)
        ensures
            e matches StorageError::NotFound(k) && k@ == key@,
    {
        StorageError::NotFound(key.to_owned())
    }
}

/// A path with slashes only.
pub open spec fn slashed(path: Seq<char>) -> Seq<char> {
    Seq::new(
        path.len(),
        |i: int|
            if path[i] == '\\' {
                '/'
            } else {
                path[i]
            },
    )
}

/// A key that is sorted.
struct Sorting {
    chars: Vec<char>,
}

impl Ordered for Sorting {
    closed spec fn before(self, other: Self) -> bool {
        text::not_after(self.chars@, other.chars@)
    }

    proof fn order_is_total(a: Self, b: Self) {
        text::text_order_is_total(a.chars@, b.chars@);
    }

    proof fn order_is_transitive(a: Self, b: Self, c: Self) {
        text::text_order_is_transitive(a.chars@, b.chars@, c.chars@);
    }

    fn goes_before(&self, other: &Self) -> (r: bool) {
        comes_first(&self.chars, &other.chars)
    }
}

/// Texts in order, each as often as it occurs.
pub fn sorted_texts(keys: &Vec<String>) -> (r: Vec<String>)
    ensures
        in_order(text::views(r@)),
        text::views(r@).to_multiset() == text::views(keys@).to_multiset(),
{
    let mut v: Vec<Sorting> = Vec::new();
    let mut i: usize = 0;
    while i < keys.len()
        invariant
            i <= keys.len(),
            v@.len() == i,
            forall|j: int| 0 <= j < i ==> (#[trigger] v@[j]).chars@ == keys@[j]@,
        decreases keys.len() - i,
    {
        v.push(Sorting { chars: to_chars(keys[i].as_str()) });
        i += 1;
    }
    let ghost loose = v@;
    let order: Vec<Sorting> = sorted(v);
    let mut out: Vec<String> = Vec::new();
    let mut i: usize = 0;
    while i < order.len()
        invariant
            i <= order.len(),
            out@.len() == i,
            forall|j: int| 0 <= j < i ==> (#[trigger] out@[j])@ == order@[j].chars@,
        decreases order.len() - i,
    {
        out.push(from_chars(order[i].chars.as_slice()));
        i += 1;
    }
    proof {
        assert forall|i: int, j: int| 0 <= i < j < out@.len() implies text::not_after(
            #[trigger] text::views(out@)[i],
            #[trigger] text::views(out@)[j],
        ) by {
            assert(order@[i].before(order@[j]));
        }
        lemma_texts_of(order@, loose);
        assert(texts_of(loose) =~= text::views(keys@));
        assert(texts_of(order@) =~= text::views(out@));
    }
    out
}

/// The texts of keys that are sorted.
spec fn texts_of(v: Seq<Sorting>) -> Seq<Seq<char>> {
    Seq::new(v.len(), |i: int| v[i].chars@)
}

proof fn lemma_texts_of(a: Seq<Sorting>, b: Seq<Sorting>)
    requires
        a.to_multiset() == b.to_multiset(),
    ensures
        texts_of(a).to_multiset() == texts_of(b).to_multiset(),
    decreases a.len(),
{
    broadcast use vstd::seq_lib::group_to_multiset_ensures;

    if a.len() == 0 {
        vstd::seq_lib::to_multiset_len(a);
        vstd::seq_lib::to_multiset_len(b);
        assert(texts_of(a) =~= texts_of(b));
    } else {
        let n = a.len() - 1;
        sort::lemma_same_members(a, b);
        assert(b.contains(a[n]));
        let j = choose|j: int| 0 <= j < b.len() && b[j] == a[n];
        lemma_texts_of(a.remove(n), b.remove(j));
        assert(texts_of(a.remove(n)) =~= texts_of(a).remove(n));
        assert(texts_of(b.remove(j)) =~= texts_of(b).remove(j));
        let x = texts_of(a)[n];
        assert(texts_of(b)[j] == x);
        let ta = texts_of(a).to_multiset();
        let tb = texts_of(b).to_multiset();
        assert(texts_of(a).contains(x) && texts_of(b).contains(x));
        assert(ta.remove(x) == tb.remove(x));
        assert(ta.remove(x).insert(x) =~= ta);
        assert(tb.remove(x).insert(x) =~= tb);
    }
}

/// A change of a store.
pub enum StoreChange {
    Put(Seq<char>),
    Delete(Seq<char>),
}

/// The keys of the objects that a store holds after changes.
pub open spec fn held_after(changes: Seq<StoreChange>) -> Set<Seq<char>>
    decreases changes.len(),
{
    if changes.len() == 0 {
        Set::empty()
    } else {
        let before = held_after(changes.drop_last());
        match changes.last() {
            StoreChange::Put(k) => before.insert(k),
            StoreChange::Delete(k) => before.remove(k),
        }
    }
}

/// Whether a store may be asked for a change: the key is valid, and does not
/// look like the name of a file that is still being written.
pub open spec fn proper(c: StoreChange) -> bool {
    match c {
        StoreChange::Put(k) => valid_key(k) && !temporary(file_name(k)),
        StoreChange::Delete(k) => true,
    }
}

/// A listing follows the store: where each object that was put and not deleted
/// has its file, and other files are still being written, a listing gives the
/// keys of the objects under the prefix and no others, each once and in order.
pub proof fn listings_follow_the_store(
    changes: Seq<StoreChange>,
    files: Seq<Seq<char>>,
    prefix: Seq<char>,
    keys: Seq<Seq<char>>,
)
    requires
        forall|i: int| 0 <= i < changes.len() ==> proper(#[trigger] changes[i]),
        files.no_duplicates(),
        forall|k: Seq<char>| #[trigger] held_after(changes).contains(k) ==> files.contains(k),
        forall|i: int|
            0 <= i < files.len() ==> held_after(changes).contains(#[trigger] files[i]) || (temporary(
                file_name(slashed(files[i])),
            ) && slashed(files[i]) != prefix),
        lists(keys, files, prefix),
    ensures
        forall|k: Seq<char>| #[trigger]
            keys.contains(k) <==> held_after(changes).contains(k) && under(k, prefix),
        keys.no_duplicates(),
        in_order(keys),
{
    let found = listed_keys(files, prefix);
    let held = held_after(changes);
    assert forall|k: Seq<char>| #[trigger] held.contains(k) implies slashed(k) == k && !temporary(file_name(k)) by {
        lemma_held_is_proper(changes, k);
        lemma_valid_is_slashed(k);
    }
    lemma_listed_held(files, prefix, held);
    sort::lemma_same_members(found, keys);
    assert forall|k: Seq<char>| #[trigger] keys.contains(k) <==> held.contains(k) && under(k, prefix) by {
        if keys.contains(k) {
            let i = choose|i: int| 0 <= i < keys.len() && keys[i] == k;
            assert(found.contains(keys[i]));
        }
        if held.contains(k) && under(k, prefix) {
            assert(found.contains(k));
            let i = choose|i: int| 0 <= i < found.len() && found[i] == k;
            assert(keys.contains(found[i]));
        }
    }
}

proof fn lemma_held_is_proper(changes: Seq<StoreChange>, k: Seq<char>)
    requires
        forall|i: int| 0 <= i < changes.len() ==> proper(#[trigger] changes[i]),
        held_after(changes).contains(k),
    ensures
        valid_key(k) && !temporary(file_name(k)),
    decreases changes.len(),
{
    if changes.len() > 0 {
        let rest = changes.drop_last();
        assert(proper(changes[changes.len() - 1]));
        if changes.last() != StoreChange::Put(k) {
            assert forall|i: int| 0 <= i < rest.len() implies proper(#[trigger] rest[i]) by {
                assert(rest[i] == changes[i]);
            }
            lemma_held_is_proper(rest, k);
        }
    }
}

/// A valid key holds no backslash.
proof fn lemma_valid_is_slashed(k: Seq<char>)
    requires
        valid_key(k),
    ensures
        slashed(k) == k,
{
    assert forall|i: int| 0 <= i < k.len() implies #[trigger] k[i] != '\\' by {
        if k[i] == '\\' {
            let j = lemma_in_a_piece(k, '/', i);
            assert(valid_part(chars::pieces(k, '/')[j]));
        }
    }
    assert(slashed(k) =~= k);
}

/// A character other than the one at which a text is cut stands in a piece.
proof fn lemma_in_a_piece(s: Seq<char>, c: char, i: int) -> (j: int)
    requires
        0 <= i < s.len(),
        s[i] != c,
    ensures
        0 <= j < chars::pieces(s, c).len(),
        chars::pieces(s, c)[j].contains(s[i]),
    decreases s.len(),
{
    let rest = chars::pieces(s.drop_last(), c);
    let all = chars::pieces(s, c);
    chars::lemma_pieces(s.drop_last(), c);
    if i == s.len() - 1 {
        let p = all.last();
        assert(p[p.len() - 1] == s[i]);
        all.len() - 1
    } else {
        let j = lemma_in_a_piece(s.drop_last(), c, i);
        let q = rest[j];
        let k = choose|k: int| 0 <= k < q.len() && q[k] == s[i];
        assert(all[j][k] == s[i]);
        j
    }
}

proof fn lemma_listed_held(files: Seq<Seq<char>>, prefix: Seq<char>, held: Set<Seq<char>>)
    requires
        files.no_duplicates(),
        forall|k: Seq<char>| #[trigger] held.contains(k) ==> slashed(k) == k && !temporary(file_name(k)),
        forall|i: int|
            0 <= i < files.len() ==> held.contains(#[trigger] files[i]) || (temporary(
                file_name(slashed(files[i])),
            ) && slashed(files[i]) != prefix),
    ensures
        listed_keys(files, prefix).no_duplicates(),
        forall|k: Seq<char>| #[trigger]
            listed_keys(files, prefix).contains(k) <==> held.contains(k) && files.contains(k) && under(
                k,
                prefix,
            ),
    decreases files.len(),
{
    if files.len() > 0 {
        let rest = files.drop_last();
        let before = listed_keys(rest, prefix);
        let after = listed_keys(files, prefix);
        let f = files.last();
        assert(f == files[files.len() - 1]);
        assert forall|i: int| 0 <= i < rest.len() implies held.contains(#[trigger] rest[i]) || (temporary(
            file_name(slashed(rest[i])),
        ) && slashed(rest[i]) != prefix) by {
            assert(rest[i] == files[i]);
        }
        lemma_listed_held(rest, prefix, held);
        assert(!rest.contains(f)) by {
            if rest.contains(f) {
                let i = choose|i: int| 0 <= i < rest.len() && rest[i] == f;
                assert(files[i] == files[files.len() - 1]);
            }
        }
        assert(listed(slashed(f), prefix) <==> held.contains(f) && under(f, prefix));
        assert forall|k: Seq<char>| #[trigger] after.contains(k) <==> held.contains(k) && files.contains(k)
            && under(k, prefix) by {
            if after.contains(k) {
                let i = choose|i: int| 0 <= i < after.len() && after[i] == k;
                if i < before.len() {
                    assert(before[i] == k);
                    assert(before.contains(k));
                    let j = choose|j: int| 0 <= j < rest.len() && rest[j] == k;
                    assert(files[j] == k);
                } else {
                    assert(files[files.len() - 1] == k);
                }
            }
            if held.contains(k) && files.contains(k) && under(k, prefix) {
                if k == f {
                    assert(after[before.len() as int] == k);
                } else {
                    let j = choose|j: int| 0 <= j < files.len() && files[j] == k;
                    assert(rest[j] == k);
                    assert(before.contains(k));
                    let i = choose|i: int| 0 <= i < before.len() && before[i] == k;
                    assert(after[i] == k);
                }
            }
        }
        assert(after.no_duplicates()) by {
            if after.len() > before.len() {
                assert(!before.contains(f));
            }
        }
    }
}

/// A place that a valid key leads to is inside the root: no part of it leads up
/// or starts anew, and no part holds a separator.
pub proof fn keys_stay_inside(key: Seq<char>, i: int)
    requires
        valid_key(key),
        0 <= i < chars::pieces(key, '/').len(),
    ensures
        chars::pieces(key, '/')[i].len() > 0,
        chars::pieces(key, '/')[i] != ".."@,
        !chars::pieces(key, '/')[i].contains('/'),
        !chars::pieces(key, '/')[i].contains('\\'),
{
    assert(valid_part(chars::pieces(key, '/')[i]));
    lemma_piece_apart(key, '/', i);
}

proof fn lemma_piece_apart(s: Seq<char>, c: char, i: int)
    requires
        0 <= i < chars::pieces(s, c).len(),
    ensures
        !chars::pieces(s, c)[i].contains(c),
    decreases s.len(),
{
    if s.len() > 0 {
        let rest = chars::pieces(s.drop_last(), c);
        chars::lemma_pieces(s.drop_last(), c);
        if i < rest.len() {
            lemma_piece_apart(s.drop_last(), c, i);
        }
        lemma_piece_apart(s.drop_last(), c, rest.len() - 1);
        let p = chars::pieces(s, c)[i];
        if s.last() != c && i == rest.len() - 1 {
            assert(p == rest.last().push(s.last()));
            if p.contains(c) {
                let k = choose|k: int| 0 <= k < p.len() && p[k] == c;
                if k < rest.last().len() {
                    assert(rest.last()[k] == c);
                }
            }
        }
    }
}

/// A key lies under a prefix where it goes on behind it with a slash, or is the
/// prefix; a key that only starts with the same characters does not.
pub proof fn keys_lie_under_whole_parts(prefix: Seq<char>, rest: Seq<char>, c: char)
    requires
        prefix.len() > 0,
    ensures
        under(prefix, prefix),
        under(prefix.push('/') + rest, prefix),
        c != '/' ==> !under(prefix.push(c) + rest, prefix),
        under(rest, Seq::empty()),
        prefix.len() > rest.len() ==> !under(rest, prefix),
{
    let key = prefix.push('/') + rest;
    assert(key.take((prefix.len() + 1) as int) =~= prefix.push('/'));
    assert(key.subrange(0, (prefix.len() + 1) as int) =~= prefix.push('/'));
    if c != '/' {
        let other = prefix.push(c) + rest;
        assert(other[prefix.len() as int] == c);
        assert(prefix.push('/')[prefix.len() as int] == '/');
        if chars::begins(other, prefix.push('/')) {
            assert(other.take((prefix.len() + 1) as int) == prefix.push('/') || other.subrange(0, (prefix.len() + 1) as int)
                == prefix.push('/'));
            assert(other.take((prefix.len() + 1) as int)[prefix.len() as int] == c);
        }
    }
}

/// A name without separators is a key, unless it stands for a place relative to
/// another one.
pub proof fn plain_names_are_keys(name: Seq<char>)
    requires
        name.len() > 0,
        !name.contains('/'),
        !name.contains('\\'),
        !name.contains('\0'),
    ensures
        valid_key(name) <==> name != "."@ && name != ".."@,
        file_name(name) == name,
{
    lemma_one_piece(name, '/');
    assert(name[0] != '/') by {
        assert(name.contains(name[0]));
    }
    let parts = chars::pieces(name, '/');
    assert(parts[0] == name);
}

proof fn lemma_one_piece(s: Seq<char>, c: char)
    requires
        !s.contains(c),
    ensures
        chars::pieces(s, c) == seq![s],
    decreases s.len(),
{
    if s.len() == 0 {
        assert(s =~= Seq::<char>::empty());
    } else {
        let r = s.drop_last();
        assert(!r.contains(c)) by {
            if r.contains(c) {
                let k = choose|k: int| 0 <= k < r.len() && r[k] == c;
                assert(s[k] == c);
            }
        }
        assert(s.last() != c) by {
            assert(s.contains(s[s.len() - 1]));
        }
        lemma_one_piece(r, c);
        assert(r.push(s.last()) =~= s);
        assert(chars::pieces(s, c) =~= seq![s]);
    }
}

/// The last part of a key is what stands behind its last slash.
pub proof fn file_names_stand_last(directory: Seq<char>, name: Seq<char>)
    requires
        !name.contains('/'),
    ensures
        file_name(directory.push('/') + name) == name,
    decreases name.len(),
{
    let key = directory.push('/') + name;
    chars::lemma_pieces(directory, '/');
    if name.len() == 0 {
        assert(key =~= directory.push('/'));
        assert(key.drop_last() =~= directory);
        assert(file_name(key) =~= name);
    } else {
        let r = name.drop_last();
        assert(!r.contains('/')) by {
            if r.contains('/') {
                let k = choose|k: int| 0 <= k < r.len() && r[k] == '/';
                assert(name[k] == '/');
            }
        }
        file_names_stand_last(directory, r);
        assert(key.drop_last() =~= directory.push('/') + r);
        assert(key.last() == name[name.len() - 1]);
        assert(name.contains(name[name.len() - 1]));
        chars::lemma_pieces(key.drop_last(), '/');
        assert(r.push(name.last()) =~= name);
    }
}

/// Only the separators of a path change when it is made a key.
pub proof fn separators_become_slashes(path: Seq<char>, i: int)
    requires
        0 <= i < path.len(),
    ensures
        slashed(path).len() == path.len(),
        !slashed(path).contains('\\'),
        path[i] != '\\' ==> slashed(path)[i] == path[i],
        path[i] == '\\' ==> slashed(path)[i] == '/',
{
}

/// A name with the mark of unfinished files and two numbers behind it is that of
/// such a file; a name without a digit at its end, or without the mark, is not.
pub proof fn unfinished_files_are_told_by_name(base: Seq<char>, a: nat, b: nat, name: Seq<char>)
    ensures
        temporary(base + ".tmp-"@ + text::decimal_text(a) + "-"@ + text::decimal_text(b)),
        temporary(name) ==> name.len() > 0 && chars::is_digit(name.last()) && exists|i: int|
            chars::stands_at(name, ".tmp-"@, i),
{
    reveal_strlit(".tmp-");
    reveal_strlit("-");
    lemma_decimal_digits(a);
    lemma_decimal_digits(b);
    let x = text::decimal_text(a);
    let y = text::decimal_text(b);
    let full = base + ".tmp-"@ + x + "-"@ + y;
    let e: int = base.len() as int + 5;
    let d: int = e + x.len() as int;
    assert(full.subrange(e - 5, e) =~= ".tmp-"@);
    assert forall|i: int| e <= i < d implies chars::is_digit(#[trigger] full[i]) by {
        assert(full[i] == x[i - e]);
    }
    assert(full[d] == '-');
    assert forall|i: int| d < i < full.len() implies chars::is_digit(#[trigger] full[i]) by {
        assert(full[i] == y[i - d - 1]);
    }
    assert(temporary_at(full, e, d));
    if temporary(name) {
        let (e, d) = choose|e: int, d: int| temporary_at(name, e, d);
        assert(chars::is_digit(name[name.len() - 1]));
        assert(chars::stands_at(name, ".tmp-"@, e - 5));
    }
}

} // verus!
