//! A map from text to values that can be walked in order of its entries.

use vstd::hash_map::StringHashMap;
use vstd::prelude::*;

verus! {

/// Whether `k` is the name of one of the entries.
pub open spec fn named<V>(entries: Seq<(String, V)>, k: Seq<char>) -> bool {
    exists|i: int| 0 <= i < entries.len() && (#[trigger] entries[i]).0@ == k
}

/// The place of the name `k` among the entries.
pub open spec fn spot<V>(entries: Seq<(String, V)>, k: Seq<char>) -> int {
    choose|i: int| 0 <= i < entries.len() && (#[trigger] entries[i]).0@ == k
}

/// Whether no name occurs twice.
pub open spec fn names_distinct<V>(entries: Seq<(String, V)>) -> bool {
    forall|i: int, j: int|
        0 <= i < entries.len() && 0 <= j < entries.len() && (#[trigger] entries[i]).0@ == (
        #[trigger] entries[j]).0@ ==> i == j
}

/// The map that the entries stand for.
pub open spec fn map_of<V>(entries: Seq<(String, V)>) -> Map<Seq<char>, V> {
    Map::new(|k: Seq<char>| named(entries, k), |k: Seq<char>| entries[spot(entries, k)].1)
}

/// With distinct names, every entry is found in the map.
pub proof fn lemma_named_entry<V>(entries: Seq<(String, V)>, i: int)
    requires
        names_distinct(entries),
        0 <= i < entries.len(),
    ensures
        map_of(entries).contains_key(entries[i].0@),
        map_of(entries)[entries[i].0@] == entries[i].1,
{
    let k = entries[i].0@;
    assert(named(entries, k));
    let j = spot(entries, k);
    assert(0 <= j < entries.len() && entries[j].0@ == k);
}

/// A map from text to values. Lookup goes through a table of places; the
/// entries themselves stand side by side.
pub struct IdMap<V> {
    places: StringHashMap<usize>,
    entries: Vec<(String, V)>,
}

impl<V> View for IdMap<V> {
    type V = Map<Seq<char>, V>;

    closed spec fn view(&self) -> Map<Seq<char>, V> {
        map_of(self.entries@)
    }
}

impl<V> IdMap<V> {
    /// Whether the table of places and the entries agree.
    pub closed spec fn wf(self) -> bool {
        &&& names_distinct(self.entries@)
        &&& forall|k: Seq<char>| #[trigger] self.places@.contains_key(k) <==> named(self.entries@, k)
        &&& forall|i: int|
            0 <= i < self.entries@.len() ==> self.places@.contains_key((#[trigger] self.entries@[i]).0@)
                && self.places@[self.entries@[i].0@] == i
    }

    /// The entries in the order in which they are listed.
    pub closed spec fn listed(self) -> Seq<(String, V)> {
        self.entries@
    }

    /// The listed entries are those of the map.
    pub proof fn lemma_listed(&self)
        requires
            self.wf(),
        ensures
            names_distinct(self.listed()),
            self@ == map_of(self.listed()),
    {
    }

    /// An empty map.
    pub fn new() -> (m: IdMap<V>)
        ensures
            m.wf(),
            m@ == Map::<Seq<char>, V>::empty(),
    {
        let m = IdMap { places: StringHashMap::new(), entries: Vec::new() };
        assert(m@ =~= Map::<Seq<char>, V>::empty());
        m
    }

    /// Number of entries.
    pub fn len(&self) -> (r: usize)
        requires
            self.wf(),
        ensures
            r == self@.dom().len(),
            self@.dom().finite(),
    {
        proof {
            lemma_count(self.entries@);
        }
        self.entries.len()
    }

    /// Whether there are no entries.
    pub fn is_empty(&self) -> (r: bool)
        requires
            self.wf(),
        ensures
            r == (self@ == Map::<Seq<char>, V>::empty()),
    {
        proof {
            if self.entries@.len() > 0 {
                lemma_named_entry(self.entries@, 0);
            } else {
                assert(self@ =~= Map::<Seq<char>, V>::empty());
            }
        }
        self.entries.len() == 0
    }

    /// The value under a name.
    pub fn get(&self, key: &str) -> (r: Option<&V>)
        requires
            self.wf(),
        ensures
            match r {
                Some(v) => self@.contains_key(key@) && *v == self@[key@],
                None => !self@.contains_key(key@),
            },
    {
        match self.places.get(key) {
            Some(i) => {
                proof {
                    let j = spot(self.entries@, key@);
                    assert(self.entries@[j].0@ == key@);
                    lemma_named_entry(self.entries@, j);
                }
                Some(&self.entries[*i].1)
            },
            None => None,
        }
    }

    /// Whether there is a value under a name.
    pub fn contains_key(&self, key: &str) -> (r: bool)
        requires
            self.wf(),
        ensures
            r == self@.contains_key(key@),
    {
        self.places.contains_key(key)
    }

    /// The entries, each name with its value.
    pub fn entries(&self) -> (r: &Vec<(String, V)>)
        requires
            self.wf(),
        ensures
            r@ == self.listed(),
            names_distinct(r@),
            self@ == map_of(r@),
    {
        &self.entries
    }

    /// Puts a value under a name, in place of the one that was there.
    pub fn insert(&mut self, key: String, value: V)
        requires
            old(self).wf(),
        ensures
            final(self).wf(),
            final(self)@ == old(self)@.insert(key@, value),
    {
        let ghost before = self.entries@;
        let ghost k = key@;
        let at: Option<usize> = match self.places.get(key.as_str()) {
            Some(i) => Some(*i),
            None => None,
        };
        match at {
            Some(i) => {
                proof {
                    let j = spot(before, k);
                    assert(before[j].0@ == k);
                    assert(i == j);
                }
                self.entries.set(i, (key, value));
                proof {
                    let after = self.entries@;
                    assert forall|j: int| 0 <= j < after.len() implies (#[trigger] after[j]).0@ == before[j].0@ by {}
                    lemma_same_names(before, after);
                    lemma_replaced(before, after, i as int);
                }
            },
            None => {
                assert(!named(before, k));
                self.places.insert(key.clone(), self.entries.len());
                self.entries.push((key, value));
                proof {
                    assert(self.entries@.take(before.len() as int) =~= before);
                    lemma_pushed(before, self.entries@);
                    let after = self.entries@;
                    assert forall|i: int| 0 <= i < after.len() implies self.places@.contains_key(
                        (#[trigger] after[i]).0@,
                    ) && self.places@[after[i].0@] == i by {
                        if i < before.len() {
                            assert(after[i] == before[i]);
                            assert(named(before, after[i].0@));
                        }
                    }
                }
            },
        }
    }

    /// Takes out the value under a name, if there is one.
    pub fn remove(&mut self, key: &str) -> (r: Option<V>)
        requires
            old(self).wf(),
        ensures
            final(self).wf(),
            final(self)@ == old(self)@.remove(key@),
            match r {
                Some(v) => old(self)@.contains_key(key@) && v == old(self)@[key@],
                None => !old(self)@.contains_key(key@),
            },
    {
        let ghost before = self.entries@;
        let ghost k = key@;
        let at: Option<usize> = match self.places.get(key) {
            Some(i) => Some(*i),
            None => None,
        };
        match at {
            Some(i) => {
                proof {
                    let j = spot(before, k);
                    assert(before[j].0@ == k);
                    assert(i == j);
                    lemma_named_entry(before, i as int);
                }
                let ghost places0 = self.places@;
                self.places.remove(key);
                let n: usize = self.entries.len();
                let gone: (String, V) = self.entries.swap_remove(i);
                if i < n - 1 {
                    let moved: String = self.entries[i].0.clone();
                    self.places.insert(moved, i);
                }
                proof {
                    let after = self.entries@;
                    let last = n - 1;
                    assert(after.len() == last);
                    assert forall|j: int| 0 <= j < last && j != i implies after[j] == before[j] by {}
                    assert(i < last ==> after[i as int] == before[last]);
                    lemma_swapped_out(before, after, i as int);
                    assert forall|j: int| 0 <= j < after.len() implies self.places@.contains_key(
                        (#[trigger] after[j]).0@,
                    ) && self.places@[after[j].0@] == j by {
                        if j == i {
                        } else {
                            assert(after[j] == before[j]);
                            assert(before[j].0@ != k);
                            if i < last {
                                assert(before[j].0@ != before[last].0@);
                            }
                        }
                    }
                    assert forall|q: Seq<char>| #[trigger] self.places@.contains_key(q) <==> named(after, q) by {
                        if named(after, q) {
                            let j = spot(after, q);
                            assert(after[j].0@ == q);
                        }
                        if self.places@.contains_key(q) {
                            if i < last && q == before[last].0@ {
                                assert(after[i as int].0@ == q);
                            } else {
                                assert(places0.contains_key(q) && q != k);
                                let j = spot(before, q);
                                assert(before[j].0@ == q);
                                if j < last {
                                    assert(after[j].0@ == q);
                                }
                            }
                        }
                    }
                }
                Some(gone.1)
            },
            None => {
                assert(!named(before, k));
                assert(self@.remove(k) =~= self@);
                None
            },
        }
    }
}

pub proof fn lemma_same_names<V>(a: Seq<(String, V)>, b: Seq<(String, V)>)
    requires
        names_distinct(a),
        a.len() == b.len(),
        forall|j: int| 0 <= j < b.len() ==> (#[trigger] b[j]).0@ == a[j].0@,
    ensures
        names_distinct(b),
        forall|q: Seq<char>| named(b, q) == named(a, q),
{
    assert forall|q: Seq<char>| named(b, q) == named(a, q) by {
        if named(a, q) {
            let j = spot(a, q);
            assert(b[j].0@ == q);
        }
        if named(b, q) {
            let j = spot(b, q);
            assert(a[j].0@ == q);
        }
    }
}

proof fn lemma_replaced<V>(a: Seq<(String, V)>, b: Seq<(String, V)>, i: int)
    requires
        names_distinct(a),
        0 <= i < a.len(),
        b == a.update(i, b[i]),
        b[i].0@ == a[i].0@,
    ensures
        map_of(b) == map_of(a).insert(a[i].0@, b[i].1),
{
    lemma_same_names(a, b);
    lemma_named_entry(b, i);
    lemma_named_entry(a, i);
    assert forall|q: Seq<char>| named(a, q) && q != a[i].0@ implies map_of(b)[q] == map_of(a)[q] by {
        let j = spot(a, q);
        assert(a[j].0@ == q);
        assert(b[j] == a[j]);
        lemma_named_entry(a, j);
        lemma_named_entry(b, j);
    }
    assert(map_of(b) =~= map_of(a).insert(a[i].0@, b[i].1));
}

pub proof fn lemma_pushed<V>(a: Seq<(String, V)>, b: Seq<(String, V)>)
    requires
        names_distinct(a),
        b.len() == a.len() + 1,
        b.take(a.len() as int) == a,
        !named(a, b[a.len() as int].0@),
    ensures
        names_distinct(b),
        forall|q: Seq<char>| named(b, q) == (named(a, q) || q == b[a.len() as int].0@),
        map_of(b) == map_of(a).insert(b[a.len() as int].0@, b[a.len() as int].1),
{
    let n = a.len() as int;
    assert forall|i: int| 0 <= i < n implies b[i] == a[i] by {
        assert(b.take(n)[i] == b[i]);
    }
    assert forall|i: int, j: int|
        0 <= i < b.len() && 0 <= j < b.len() && (#[trigger] b[i]).0@ == (#[trigger] b[j]).0@ implies i == j by {
        if i < n {
            assert(b[i] == a[i]);
            assert(named(a, b[i].0@));
        }
        if j < n {
            assert(b[j] == a[j]);
            assert(named(a, b[j].0@));
        }
    }
    assert forall|q: Seq<char>| named(b, q) == (named(a, q) || q == b[n].0@) by {
        if named(a, q) {
            let j = spot(a, q);
            assert(b[j].0@ == q);
        }
        if named(b, q) {
            let j = spot(b, q);
            if j < n {
                assert(a[j].0@ == q);
            }
        }
    }
    lemma_named_entry(b, n);
    assert forall|q: Seq<char>| named(a, q) && q != b[n].0@ implies map_of(b)[q] == map_of(a)[q] by {
        let j = spot(a, q);
        assert(a[j].0@ == q);
        assert(b[j] == a[j]);
        lemma_named_entry(a, j);
        lemma_named_entry(b, j);
    }
    assert(map_of(b) =~= map_of(a).insert(b[n].0@, b[n].1));
}

proof fn lemma_swapped_out<V>(a: Seq<(String, V)>, b: Seq<(String, V)>, i: int)
    requires
        names_distinct(a),
        0 <= i < a.len(),
        b.len() == a.len() - 1,
        forall|j: int| 0 <= j < b.len() && j != i ==> #[trigger] b[j] == a[j],
        i < b.len() ==> b[i] == a[a.len() - 1],
    ensures
        names_distinct(b),
        map_of(b) == map_of(a).remove(a[i].0@),
{
    let last = a.len() - 1;
    let from = |j: int|
        if j == i {
            last
        } else {
            j
        };
    assert forall|j: int| 0 <= j < b.len() implies b[j] == a[#[trigger] from(j)] && 0 <= from(j) < a.len() && from(j) != i by {}
    assert forall|p: int, q: int|
        0 <= p < b.len() && 0 <= q < b.len() && (#[trigger] b[p]).0@ == (#[trigger] b[q]).0@ implies p == q by {
        assert(b[p] == a[from(p)] && b[q] == a[from(q)]);
    }
    assert forall|q: Seq<char>| named(b, q) == (named(a, q) && q != a[i].0@) by {
        if named(b, q) {
            let j = spot(b, q);
            assert(b[j] == a[from(j)]);
            assert(a[from(j)].0@ == q);
        }
        if named(a, q) && q != a[i].0@ {
            let j = spot(a, q);
            assert(a[j].0@ == q);
            if j == last {
                assert(b[i].0@ == q);
            } else {
                assert(b[j].0@ == q);
            }
        }
    }
    assert forall|q: Seq<char>| named(b, q) implies map_of(b)[q] == map_of(a)[q] by {
        let j = spot(b, q);
        assert(b[j].0@ == q);
        assert(b[j] == a[from(j)]);
        lemma_named_entry(b, j);
        lemma_named_entry(a, from(j));
    }
    assert(map_of(b) =~= map_of(a).remove(a[i].0@));
}

pub proof fn lemma_count<V>(entries: Seq<(String, V)>)
    requires
        names_distinct(entries),
    ensures
        map_of(entries).dom().finite(),
        map_of(entries).dom().len() == entries.len(),
{
    let names = Seq::new(entries.len(), |i: int| entries[i].0@);
    assert(names.no_duplicates()) by {
        assert forall|i: int, j: int| 0 <= i < names.len() && 0 <= j < names.len() && i != j implies names[i]
            != names[j] by {
            assert(entries[i].0@ == names[i] && entries[j].0@ == names[j]);
        }
    }
    names.unique_seq_to_set();
    assert(names.to_set() =~= map_of(entries).dom()) by {
        assert forall|q: Seq<char>| names.to_set().contains(q) == map_of(entries).dom().contains(q) by {
            if names.contains(q) {
                let i = choose|i: int| 0 <= i < names.len() && names[i] == q;
                assert(entries[i].0@ == q);
            }
            if named(entries, q) {
                let i = spot(entries, q);
                assert(names[i] == q);
            }
        }
    }
}

} // verus!
