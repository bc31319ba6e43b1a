//! Small tables: values under keys that can be compared for equality.

use vstd::prelude::*;
use vstd::string::*;

use crate::text::same_text;

verus! {

/// Values that can be keys of a table.
pub trait TableKey: View + Sized {
    fn same(&self, other: &Self) -> (r: bool)
        ensures
            r == (self@ == other@),
    ;
}

impl TableKey for String {
    fn same(&self, other: &Self) -> (r: bool) {
        same_text(self.as_str(), other.as_str())
    }
}

impl TableKey for u64 {
    fn same(&self, other: &Self) -> (r: bool) {
        *self == *other
    }
}

impl TableKey for u128 {
    fn same(&self, other: &Self) -> (r: bool) {
        *self == *other
    }
}

/// Whether a key stands among entries.
pub open spec fn keyed<K: TableKey, V>(entries: Seq<(K, V)>, k: K::V) -> bool {
    exists|i: int| 0 <= i < entries.len() && (#[trigger] entries[i]).0@ == k
}

/// A place of a key among entries.
pub open spec fn seat<K: TableKey, V>(entries: Seq<(K, V)>, k: K::V) -> int {
    choose|i: int| 0 <= i < entries.len() && (#[trigger] entries[i]).0@ == k
}

/// Whether no key stands twice among entries.
pub open spec fn keys_apart<K: TableKey, V>(entries: Seq<(K, V)>) -> bool {
    forall|i: int, j: int|
        0 <= i < entries.len() && 0 <= j < entries.len() && (#[trigger] entries[i]).0@ == (
        #[trigger] entries[j]).0@ ==> i == j
}

/// The map that entries stand for.
pub open spec fn table_map<K: TableKey, V>(entries: Seq<(K, V)>) -> Map<K::V, V> {
    Map::new(|k: K::V| keyed(entries, k), |k: K::V| entries[seat(entries, k)].1)
}

/// An entry stands for itself.
pub proof fn lemma_seated<K: TableKey, V>(entries: Seq<(K, V)>, i: int)
    requires
        keys_apart(entries),
        0 <= i < entries.len(),
    ensures
        keyed(entries, entries[i].0@),
        seat(entries, entries[i].0@) == i,
        table_map(entries).contains_key(entries[i].0@),
        table_map(entries)[entries[i].0@] == entries[i].1,
{
    let k = entries[i].0@;
    assert(entries[i].0@ == k);
    let j = seat(entries, k);
    assert(entries[j].0@ == k);
}

/// Values under keys.
pub struct Table<K: TableKey, V> {
    entries: Vec<(K, V)>,
}

impl<K: TableKey, V> View for Table<K, V> {
    type V = Map<K::V, V>;

    closed spec fn view(&self) -> Map<K::V, V> {
        table_map(self.entries@)
    }
}

impl<K: TableKey, V> Table<K, V> {
    /// Whether no key stands twice.
    #[verifier::type_invariant]
    spec fn apart(self) -> bool {
        keys_apart(self.entries@)
    }

    /// The entries in the order in which they are listed.
    pub closed spec fn listed(self) -> Seq<(K, V)> {
        self.entries@
    }

    /// An empty table.
    pub fn new() -> (t: Table<K, V>)
        ensures
            t@ == Map::<K::V, V>::empty(),
            t.listed() == Seq::<(K, V)>::empty(),
    {
        let t = Table { entries: Vec::new() };
        assert(t@ =~= Map::<K::V, V>::empty());
        t
    }

    /// A table of entries.
    pub fn from_entries(entries: Vec<(K, V)>) -> (t: Table<K, V>)
        requires
            keys_apart(entries@),
        ensures
            t@ == table_map(entries@),
            t.listed() == entries@,
    {
        Table { entries }
    }

    /// Number of entries.
    pub fn len(&self) -> (n: usize)
        ensures
            n == self.listed().len(),
            n == self@.dom().len(),
            self@.dom().finite(),
    {
        proof {
            use_type_invariant(self);
            lemma_table_count(self.entries@);
        }
        self.entries.len()
    }

    /// The entries.
    pub fn entries(&self) -> (r: &Vec<(K, V)>)
        ensures
            r@ == self.listed(),
            keys_apart(r@),
            self@ == table_map(r@),
    {
        proof {
            use_type_invariant(self);
        }
        &self.entries
    }

    fn find(&self, key: &K) -> (r: Option<usize>)
        ensures
            match r {
                Some(i) => i < self.entries@.len() && self.entries@[i as int].0@ == key@,
                None => !keyed(self.entries@, key@),
            },
    {
        let mut i: usize = 0;
        while i < self.entries.len()
            invariant
                i <= self.entries.len(),
                forall|j: int| 0 <= j < i ==> (#[trigger] self.entries@[j]).0@ != key@,
            decreases self.entries.len() - i,
        {
            if self.entries[i].0.same(key) {
                return Some(i);
            }
            i += 1;
        }
        None
    }

    /// The value under a key.
    pub fn get(&self, key: &K) -> (r: Option<&V>)
        ensures
            match r {
                Some(v) => self@.contains_key(key@) && *v == self@[key@],
                None => !self@.contains_key(key@),
            },
    {
        proof {
            use_type_invariant(self);
        }
        match self.find(key) {
            Some(i) => {
                proof {
                    lemma_seated(self.entries@, i as int);
                }
                Some(&self.entries[i].1)
            },
            None => None,
        }
    }

    /// Whether there is a value under a key.
    pub fn contains_key(&self, key: &K) -> (r: bool)
        ensures
            r == self@.contains_key(key@),
    {
        proof {
            use_type_invariant(self);
        }
        match self.find(key) {
            Some(i) => {
                proof {
                    lemma_seated(self.entries@, i as int);
                }
                true
            },
            None => false,
        }
    }

    /// Puts a value under a key, in place of the one that was there. A new key
    /// is listed last.
    pub fn insert(&mut self, key: K, value: V)
        ensures
            final(self)@ == old(self)@.insert(key@, value),
            !old(self)@.contains_key(key@) ==> final(self).listed() == old(self).listed().push((key, value)),
    {
        proof {
            use_type_invariant(&*self);
        }
        let ghost before = self.entries@;
        let ghost k = key@;
        let at: Option<usize> = self.find(&key);
        let mut entries: Vec<(K, V)> = Vec::new();
        std::mem::swap(&mut entries, &mut self.entries);
        match at {
            Some(i) => {
                proof {
                    lemma_seated(before, i as int);
                }
                entries.set(i, (key, value));
                proof {
                    let after = entries@;
                    assert forall|a: int, b: int|
                        0 <= a < after.len() && 0 <= b < after.len() && (#[trigger] after[a]).0@ == (
                        #[trigger] after[b]).0@ implies a == b by {
                        assert(after[a].0@ == before[a].0@ && after[b].0@ == before[b].0@);
                    }
                    lemma_seated(after, i as int);
                    assert forall|q: K::V| keyed(after, q) == keyed(before, q) by {
                        if keyed(before, q) {
                            let j = seat(before, q);
                            assert(after[j].0@ == q);
                        }
                        if keyed(after, q) {
                            let j = seat(after, q);
                            assert(before[j].0@ == q);
                        }
                    }
                    assert(table_map(after) =~= table_map(before).insert(k, value)) by {
                        assert forall|q: K::V| keyed(after, q) && q != k implies table_map(after)[q]
                            == table_map(before)[q] by {
                            let j = seat(after, q);
                            assert(after[j].0@ == q && j != i);
                            assert(before[j] == after[j]);
                            lemma_seated(before, j);
                        }
                    }
                }
            },
            None => {
                entries.push((key, value));
                proof {
                    let after = entries@;
                    let n = before.len() as int;
                    assert forall|a: int, b: int|
                        0 <= a < after.len() && 0 <= b < after.len() && (#[trigger] after[a]).0@ == (
                        #[trigger] after[b]).0@ implies a == b by {
                        if a < n {
                            assert(before[a] == after[a]);
                        }
                        if b < n {
                            assert(before[b] == after[b]);
                        }
                    }
                    lemma_seated(after, n);
                    assert(table_map(after) =~= table_map(before).insert(k, value)) by {
                        assert forall|q: K::V| keyed(after, q) == (keyed(before, q) || q == k) by {
                            if keyed(before, q) {
                                let j = seat(before, q);
                                assert(after[j].0@ == q);
                            }
                            if keyed(after, q) {
                                let j = seat(after, q);
                                if j < n {
                                    assert(before[j].0@ == q);
                                }
                            }
                        }
                        assert forall|q: K::V| keyed(before, q) implies table_map(after)[q] == table_map(
                            before,
                        )[q] by {
                            let j = seat(before, q);
                            assert(after[j] == before[j] && before[j].0@ == q);
                            lemma_seated(after, j);
                        }
                    }
                }
            },
        }
        self.entries = entries;
    }

    /// Takes out the value under a key, if there is one. The others keep their
    /// order.
    pub fn remove(&mut self, key: &K) -> (r: Option<V>)
        ensures
            final(self)@ == old(self)@.remove(key@),
            match r {
                Some(v) => old(self)@.contains_key(key@) && v == old(self)@[key@],
                None => !old(self)@.contains_key(key@) && final(self).listed() == old(self).listed(),
            },
    {
        proof {
            use_type_invariant(&*self);
        }
        let ghost before = self.entries@;
        let ghost k = key@;
        match self.find(key) {
            Some(i) => {
                proof {
                    lemma_seated(before, i as int);
                }
                let mut entries: Vec<(K, V)> = Vec::new();
                std::mem::swap(&mut entries, &mut self.entries);
                let gone: (K, V) = entries.remove(i);
                proof {
                    let after = entries@;
                    assert forall|a: int| 0 <= a < after.len() implies after[a] == before[if a < i {
                        a
                    } else {
                        a + 1
                    }] by {}
                    assert forall|a: int, b: int|
                        0 <= a < after.len() && 0 <= b < after.len() && (#[trigger] after[a]).0@ == (
                        #[trigger] after[b]).0@ implies a == b by {
                        let x = if a < i {
                            a
                        } else {
                            a + 1
                        };
                        let y = if b < i {
                            b
                        } else {
                            b + 1
                        };
                        assert(before[x] == after[a] && before[y] == after[b]);
                    }
                    assert(table_map(after) =~= table_map(before).remove(k)) by {
                        assert forall|q: K::V| keyed(after, q) == (keyed(before, q) && q != k) by {
                            if keyed(before, q) && q != k {
                                let j = seat(before, q);
                                assert(before[j].0@ == q);
                                let a = if j < i {
                                    j
                                } else {
                                    j - 1
                                };
                                assert(after[a] == before[j]);
                            }
                            if keyed(after, q) {
                                let a = seat(after, q);
                                let x = if a < i {
                                    a
                                } else {
                                    a + 1
                                };
                                assert(before[x] == after[a] && before[x].0@ == q);
                                if q == k {
                                    assert(before[i as int].0@ == q);
                                    assert(x == i);
                                }
                            }
                        }
                        assert forall|q: K::V| keyed(after, q) implies table_map(after)[q] == table_map(
                            before,
                        )[q] by {
                            let a = seat(after, q);
                            let x = if a < i {
                                a
                            } else {
                                a + 1
                            };
                            assert(before[x] == after[a] && before[x].0@ == q);
                            lemma_seated(before, x);
                        }
                    }
                }
                self.entries = entries;
                Some(gone.1)
            },
            None => {
                assert(self@ =~= old(self)@.remove(k));
                None
            },
        }
    }
}

/// There are as many keys as entries.
pub proof fn lemma_table_count<K: TableKey, V>(entries: Seq<(K, V)>)
    requires
        keys_apart(entries),
    ensures
        table_map(entries).dom().finite(),
        table_map(entries).dom().len() == entries.len(),
    decreases entries.len(),
{
    if entries.len() == 0 {
        assert(table_map(entries).dom() =~= Set::<K::V>::empty());
    } else {
        let rest = entries.drop_last();
        let n = entries.len() - 1;
        let k = entries[n].0@;
        assert forall|a: int, b: int|
            0 <= a < rest.len() && 0 <= b < rest.len() && (#[trigger] rest[a]).0@ == (
            #[trigger] rest[b]).0@ implies a == b by {
            assert(rest[a] == entries[a] && rest[b] == entries[b]);
        }
        lemma_table_count(rest);
        assert(!keyed(rest, k)) by {
            if keyed(rest, k) {
                let j = seat(rest, k);
                assert(rest[j] == entries[j] && entries[j].0@ == entries[n].0@);
            }
        }
        assert(table_map(entries).dom() =~= table_map(rest).dom().insert(k)) by {
            assert forall|q: K::V| keyed(entries, q) == (keyed(rest, q) || q == k) by {
                if keyed(rest, q) {
                    let j = seat(rest, q);
                    assert(entries[j].0@ == q);
                }
                if keyed(entries, q) {
                    let j = seat(entries, q);
                    if j < n {
                        assert(rest[j].0@ == q);
                    }
                }
                if q == k {
                    assert(entries[n].0@ == q);
                }
            }
        }
    }
}

} // verus!
