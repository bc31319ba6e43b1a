//! Core data types: embeddings, ids, documents, metadata and distance spaces.

use vstd::prelude::*;
use vstd::string::*;

use crate::num;
use crate::num::F64;
use crate::text::same_text;

verus! {

/// A dense embedding vector, each component held by its single-precision bit
/// pattern.
pub type Embedding = Vec<u32>;

/// Stable identifier of a record.
pub type Id = String;

/// Free text associated with a record.
pub type Document = String;

/// A single metadata value: text, truth value, integer or double.
#[derive(Debug, PartialEq)]
pub enum MetadataValue {
    Str(String),
    Bool(bool),
    Int(i64),
    Float(F64),
}

/// A metadata value as a mathematical value.
pub enum MetaView {
    Str(Seq<char>),
    Bool(bool),
    Int(i64),
    Float(F64),
}

impl View for MetadataValue {
    type V = MetaView;

    open spec fn view(&self) -> MetaView {
        match self {
            MetadataValue::Str(s) => MetaView::Str(s@),
            MetadataValue::Bool(b) => MetaView::Bool(*b),
            MetadataValue::Int(i) => MetaView::Int(*i),
            MetadataValue::Float(f) => MetaView::Float(*f),
        }
    }
}

impl Clone for MetadataValue {
    fn clone(&self) -> (r: Self)
        ensures
            r@ == self@,
    {
        match self {
            MetadataValue::Str(s) => MetadataValue::Str(s.clone()),
            MetadataValue::Bool(b) => MetadataValue::Bool(*b),
            MetadataValue::Int(i) => MetadataValue::Int(*i),
            MetadataValue::Float(f) => MetadataValue::Float(*f),
        }
    }
}

impl MetaView {
    /// The number that a value is compared by, for integers and doubles.
    pub open spec fn number(self) -> Option<F64> {
        match self {
            MetaView::Int(i) => Some(F64::of_int(i as int)),
            MetaView::Float(f) => Some(f),
            _ => None,
        }
    }

    /// Equality of metadata values: text with text, truth value with truth
    /// value, and numbers numerically. Two integers compare exactly; an
    /// integer and a double compare as doubles.
    pub open spec fn same(self, other: MetaView) -> bool {
        match (self, other) {
            (MetaView::Str(a), MetaView::Str(b)) => a == b,
            (MetaView::Bool(a), MetaView::Bool(b)) => a == b,
            (MetaView::Int(a), MetaView::Int(b)) => a == b,
            (MetaView::Float(a), MetaView::Float(b)) => a.equals(b),
            (MetaView::Int(a), MetaView::Float(b)) => F64::of_int(a as int).equals(b),
            (MetaView::Float(a), MetaView::Int(b)) => a.equals(F64::of_int(b as int)),
            _ => false,
        }
    }
}

impl MetadataValue {
    /// The value as a double: integers are converted, text and truth values
    /// have none.
    pub fn as_f64(&self) -> (r: Option<F64>)
        ensures
            r == self@.number(),
    {
        match self {
            MetadataValue::Int(i) => Some(F64::from_i64(*i)),
            MetadataValue::Float(f) => Some(*f),
            _ => None,
        }
    }
}

/// Equality of metadata values with numeric coercion.
pub fn values_equal(a: &MetadataValue, b: &MetadataValue) -> (r: bool)
    ensures
        r == a@.same(b@),
{
    match (a, b) {
        (MetadataValue::Str(x), MetadataValue::Str(y)) => same_text(x.as_str(), y.as_str()),
        (MetadataValue::Bool(x), MetadataValue::Bool(y)) => *x == *y,
        (MetadataValue::Int(x), MetadataValue::Int(y)) => *x == *y,
        (MetadataValue::Float(x), MetadataValue::Float(y)) => x.num_eq(y),
        (MetadataValue::Int(x), MetadataValue::Float(y)) => F64::from_i64(*x).num_eq(y),
        (MetadataValue::Float(x), MetadataValue::Int(y)) => x.num_eq(&F64::from_i64(*y)),
        _ => false,
    }
}

/// An integer equals its own conversion: `5` and `5.0` are the same value.
pub proof fn integer_equals_its_double(i: i64)
    ensures
        MetaView::Int(i).same(MetaView::Float(F64::of_int(i as int))) == !F64::of_int(i as int).nan(),
{
}

// ---------------------------------------------------------------------------
// Metadata
// ---------------------------------------------------------------------------

/// Whether `k` is the key of one of the entries.
pub open spec fn has_key(entries: Seq<(String, MetadataValue)>, k: Seq<char>) -> bool {
    exists|i: int| 0 <= i < entries.len() && (#[trigger] entries[i]).0@ == k
}

/// The place of the key `k` among the entries.
pub open spec fn place_of(entries: Seq<(String, MetadataValue)>, k: Seq<char>) -> int {
    choose|i: int| 0 <= i < entries.len() && (#[trigger] entries[i]).0@ == k
}

/// The map that the entries stand for.
pub open spec fn entries_map(entries: Seq<(String, MetadataValue)>) -> Map<Seq<char>, MetaView> {
    Map::new(|k: Seq<char>| has_key(entries, k), |k: Seq<char>| entries[place_of(entries, k)].1@)
}

/// Whether no key occurs twice.
pub open spec fn keys_distinct(entries: Seq<(String, MetadataValue)>) -> bool {
    forall|i: int, j: int|
        0 <= i < entries.len() && 0 <= j < entries.len() && (#[trigger] entries[i]).0@ == (
        #[trigger] entries[j]).0@ ==> i == j
}

/// With distinct keys, every entry is found in the map.
pub proof fn lemma_entry(entries: Seq<(String, MetadataValue)>, i: int)
    requires
        keys_distinct(entries),
        0 <= i < entries.len(),
    ensures
        entries_map(entries).contains_key(entries[i].0@),
        entries_map(entries)[entries[i].0@] == entries[i].1@,
{
    let k = entries[i].0@;
    assert(has_key(entries, k));
    let j = place_of(entries, k);
    assert(0 <= j < entries.len() && entries[j].0@ == k);
}

/// Metadata of a record: values under distinct names.
#[derive(Debug)]
pub struct Metadata {
    entries: Vec<(String, MetadataValue)>,
}

impl View for Metadata {
    type V = Map<Seq<char>, MetaView>;

    closed spec fn view(&self) -> Map<Seq<char>, MetaView> {
        entries_map(self.entries@)
    }
}

impl Metadata {
    #[verifier::type_invariant]
    spec fn inv(self) -> bool {
        keys_distinct(self.entries@)
    }

    /// Metadata without entries.
    pub fn new() -> (m: Metadata)
        ensures
            m@ == Map::<Seq<char>, MetaView>::empty(),
    {
        let m = Metadata { entries: Vec::new() };
        assert(m@ =~= Map::<Seq<char>, MetaView>::empty());
        m
    }

    /// The value under a name.
    pub fn get(&self, key: &str) -> (r: Option<&MetadataValue>)
        ensures
            match r {
                Some(v) => self@.contains_key(key@) && v@ == self@[key@],
                None => !self@.contains_key(key@),
            },
    {
        proof {
            use_type_invariant(self);
        }
        match Metadata::find(&self.entries, key) {
            Some(i) => {
                proof {
                    lemma_entry(self.entries@, i as int);
                }
                Some(&self.entries[i].1)
            },
            None => None,
        }
    }

    /// Puts a value under a name, in place of the one that was there.
    pub fn insert(&mut self, key: String, value: MetadataValue)
        ensures
            final(self)@ == old(self)@.insert(key@, value@),
    {
        proof {
            use_type_invariant(&*self);
        }
        let ghost before = self.entries@;
        let mut entries: Vec<(String, MetadataValue)> = Vec::new();
        std::mem::swap(&mut entries, &mut self.entries);
        let at = Metadata::find(&entries, key.as_str());
        let ghost k = key@;
        let ghost v = value@;
        match at {
            Some(i) => {
                entries.set(i, (key, value));
            },
            None => {
                entries.push((key, value));
            },
        }
        proof {
            let after = entries@;
            assert forall|i: int, j: int|
                0 <= i < after.len() && 0 <= j < after.len() && (#[trigger] after[i]).0@ == (
                #[trigger] after[j]).0@ implies i == j by {
                if at is None {
                    if i < before.len() {
                        assert(before[i] == after[i]);
                    }
                    if j < before.len() {
                        assert(before[j] == after[j]);
                    }
                } else {
                    assert(before[i].0@ == after[i].0@);
                    assert(before[j].0@ == after[j].0@);
                }
            }
            let w: int = if at is None {
                before.len() as int
            } else {
                at->0 as int
            };
            assert(after[w].0@ == k && after[w].1@ == v);
            lemma_entry(after, w);
            assert forall|q: Seq<char>| has_key(after, q) == (q == k || has_key(before, q)) by {
                if has_key(before, q) {
                    let i = place_of(before, q);
                    assert(after[i].0@ == q);
                }
                if has_key(after, q) {
                    let i = place_of(after, q);
                    if i != w {
                        assert(before[i].0@ == q);
                    }
                }
            }
            assert forall|q: Seq<char>| q != k && has_key(before, q) implies entries_map(after)[q]
                == entries_map(before)[q] by {
                let i = place_of(before, q);
                assert(after[i].0@ == q);
                lemma_entry(before, i);
                lemma_entry(after, i);
            }
            assert(entries_map(after) =~= entries_map(before).insert(k, v));
        }
        self.entries = entries;
    }

    fn find(entries: &Vec<(String, MetadataValue)>, key: &str) -> (r: Option<usize>)
        ensures
            match r {
                Some(i) => i < entries@.len() && entries@[i as int].0@ == key@,
                None => !has_key(entries@, key@),
            },
    {
        let mut i: usize = 0;
        while i < entries.len()
            invariant
                i <= entries.len(),
                forall|j: int| 0 <= j < i ==> (#[trigger] entries@[j]).0@ != key@,
            decreases entries.len() - i,
        {
            if same_text(entries[i].0.as_str(), key) {
                return Some(i);
            }
            i += 1;
        }
        None
    }

    /// The entries, each name with its value.
    pub fn entries(&self) -> (r: &Vec<(String, MetadataValue)>)
        ensures
            keys_distinct(r@),
            self@ == entries_map(r@),
    {
        proof {
            use_type_invariant(self);
        }
        &self.entries
    }

    /// Whether both hold the same names with the same values.
    pub fn same_as(&self, other: &Metadata) -> (r: bool)
        ensures
            r == same_metadata(self@, other@),
    {
        let a: &Vec<(String, MetadataValue)> = self.entries();
        let b: &Vec<(String, MetadataValue)> = other.entries();
        let mut i: usize = 0;
        while i < a.len()
            invariant
                i <= a.len(),
                keys_distinct(a@),
                self@ == entries_map(a@),
                forall|j: int|
                    0 <= j < i ==> other@.contains_key((#[trigger] a@[j]).0@) && a@[j].1@.alike(
                        other@[a@[j].0@],
                    ),
            decreases a.len() - i,
        {
            proof {
                lemma_entry(a@, i as int);
            }
            match other.get(a[i].0.as_str()) {
                Some(v) => {
                    if !a[i].1.is_alike(v) {
                        return false;
                    }
                },
                None => {
                    return false;
                },
            }
            i += 1;
        }
        let mut k: usize = 0;
        while k < b.len()
            invariant
                k <= b.len(),
                keys_distinct(b@),
                other@ == entries_map(b@),
                forall|j: int| 0 <= j < k ==> self@.contains_key((#[trigger] b@[j]).0@),
            decreases b.len() - k,
        {
            proof {
                lemma_entry(b@, k as int);
            }
            if self.get(b[k].0.as_str()).is_none() {
                return false;
            }
            k += 1;
        }
        proof {
            assert forall|q: Seq<char>| self@.contains_key(q) implies other@.contains_key(q)
                && self@[q].alike(other@[q]) by {
                let j = place_of(a@, q);
                assert(a@[j].0@ == q);
                lemma_entry(a@, j);
            }
            assert forall|q: Seq<char>| other@.contains_key(q) implies self@.contains_key(q) by {
                let j = place_of(b@, q);
                assert(b@[j].0@ == q);
            }
            assert(self@.dom() =~= other@.dom());
        }
        true
    }
}

impl Clone for Metadata {
    fn clone(&self) -> (r: Self)
        ensures
            r@ == self@,
    {
        let a: &Vec<(String, MetadataValue)> = self.entries();
        let mut entries: Vec<(String, MetadataValue)> = Vec::new();
        let mut i: usize = 0;
        while i < a.len()
            invariant
                i <= a.len(),
                keys_distinct(a@),
                entries@.len() == i,
                forall|j: int|
                    0 <= j < i ==> (#[trigger] entries@[j]).0@ == a@[j].0@ && entries@[j].1@ == a@[j].1@,
            decreases a.len() - i,
        {
            entries.push((a[i].0.clone(), a[i].1.clone()));
            i += 1;
        }
        proof {
            let c = entries@;
            assert forall|i: int, j: int|
                0 <= i < c.len() && 0 <= j < c.len() && (#[trigger] c[i]).0@ == (#[trigger] c[j]).0@
                implies i == j by {
                assert(a@[i].0@ == a@[j].0@);
            }
            assert forall|q: Seq<char>| has_key(c, q) == has_key(a@, q) by {
                if has_key(c, q) {
                    assert(a@[place_of(c, q)].0@ == q);
                }
                if has_key(a@, q) {
                    assert(c[place_of(a@, q)].0@ == q);
                }
            }
            assert forall|q: Seq<char>| has_key(c, q) implies entries_map(c)[q] == entries_map(a@)[q] by {
                let j = place_of(c, q);
                assert(a@[j].0@ == q);
                lemma_entry(c, j);
                lemma_entry(a@, j);
            }
            assert(entries_map(c) =~= entries_map(a@));
        }
        Metadata { entries }
    }
}

impl MetaView {
    /// Equality of stored values: of one kind, and equal within it. Unlike
    /// [`MetaView::same`] it does not hold an integer equal to a double.
    pub open spec fn alike(self, other: MetaView) -> bool {
        match (self, other) {
            (MetaView::Str(a), MetaView::Str(b)) => a == b,
            (MetaView::Bool(a), MetaView::Bool(b)) => a == b,
            (MetaView::Int(a), MetaView::Int(b)) => a == b,
            (MetaView::Float(a), MetaView::Float(b)) => a.equals(b),
            _ => false,
        }
    }
}

impl MetadataValue {
    fn is_alike(&self, other: &MetadataValue) -> (r: bool)
        ensures
            r == self@.alike(other@),
    {
        match (self, other) {
            (MetadataValue::Str(x), MetadataValue::Str(y)) => same_text(x.as_str(), y.as_str()),
            (MetadataValue::Bool(x), MetadataValue::Bool(y)) => *x == *y,
            (MetadataValue::Int(x), MetadataValue::Int(y)) => *x == *y,
            (MetadataValue::Float(x), MetadataValue::Float(y)) => x.num_eq(y),
            _ => false,
        }
    }
}

/// Whether two metadata maps have the same names, with alike values.
pub open spec fn same_metadata(a: Map<Seq<char>, MetaView>, b: Map<Seq<char>, MetaView>) -> bool {
    a.dom() == b.dom() && forall|k: Seq<char>| #[trigger] a.contains_key(k) ==> a[k].alike(b[k])
}

/// Optional metadata as a mathematical value.
pub open spec fn meta_opt(m: Option<Metadata>) -> Option<Map<Seq<char>, MetaView>> {
    match m {
        Some(m) => Some(m@),
        None => None,
    }
}

/// Optional text as a mathematical value.
pub open spec fn text_opt(d: Option<String>) -> Option<Seq<char>> {
    match d {
        Some(d) => Some(d@),
        None => None,
    }
}

/// Copies optional metadata.
pub fn clone_meta(m: &Option<Metadata>) -> (r: Option<Metadata>)
    ensures
        meta_opt(r) == meta_opt(*m),
{
    match m {
        Some(m) => Some(m.clone()),
        None => None,
    }
}

/// Copies optional text.
pub fn clone_text(d: &Option<String>) -> (r: Option<String>)
    ensures
        text_opt(r) == text_opt(*d),
{
    match d {
        Some(d) => Some(d.clone()),
        None => None,
    }
}

// ---------------------------------------------------------------------------
// Distance spaces
// ---------------------------------------------------------------------------

/// The distance space that a collection is indexed and searched in.
#[derive(Debug, Clone, Copy, PartialEq, Eq, Structural)]
pub enum Distance {
    /// Squared Euclidean distance.
    L2,
    /// One less the inner product of the normalised vectors.
    Cosine,
    /// One less the inner product.
    Ip,
}

impl Default for Distance {
    fn default() -> (d: Self)
        ensures
            d == Distance::L2,
    {
        Distance::L2
    }
}

/// A name that is no distance space.
#[derive(Debug, Clone, PartialEq, Eq)]
pub struct DistanceParseError(pub String);

impl DistanceParseError {
    /// The message that describes the error.
    pub fn message(&self) -> (r: String)
        ensures
            r@ == "unknown distance space `"@ + self.0@ + "` (expected \"l2\", \"cosine\", or \"ip\")"@,
    {
        let mut s: String = "unknown distance space `".to_owned();
        s.append(self.0.as_str());
        s.append("` (expected \"l2\", \"cosine\", or \"ip\")");
        s
    }
}

impl Distance {
    /// The canonical name of a distance space.
    pub open spec fn label(self) -> Seq<char> {
        match self {
            Distance::L2 => "l2"@,
            Distance::Cosine => "cosine"@,
            Distance::Ip => "ip"@,
        }
    }

    /// The canonical lowercase name, as used in collection configurations.
    pub fn name(&self) -> (r: &'static str)
        ensures
            r@ == self.label(),
    {
        match self {
            Distance::L2 => "l2",
            Distance::Cosine => "cosine",
            Distance::Ip => "ip",
        }
    }

    /// Reads a canonical name.
    pub fn parse(s: &str) -> (r: Result<Distance, DistanceParseError>)
        ensures
            match r {
                Ok(d) => s@ == d.label(),
                Err(e) => e.0@ == s@ && forall|d: Distance| s@ != #[trigger] d.label(),
            },
    {
        if same_text(s, "l2") {
            Ok(Distance::L2)
        } else if same_text(s, "cosine") {
            Ok(Distance::Cosine)
        } else if same_text(s, "ip") {
            Ok(Distance::Ip)
        } else {
            Err(DistanceParseError(s.to_owned()))
        }
    }
}

impl std::str::FromStr for Distance {
    type Err = DistanceParseError;

    fn from_str(s: &str) -> (r: Result<Self, DistanceParseError>)
        ensures
            match r {
                Ok(d) => s@ == d.label(),
                Err(e) => e.0@ == s@ && forall|d: Distance| s@ != #[trigger] d.label(),
            },
    {
        Distance::parse(s)
    }
}

/// The names tell the distance spaces apart, so that reading a name gives back
/// the space it was written for.
pub proof fn distance_names_are_distinct(a: Distance, b: Distance)
    requires
        a.label() == b.label(),
    ensures
        a == b,
{
    reveal_strlit("l2");
    reveal_strlit("cosine");
    reveal_strlit("ip");
    assert("l2"@[0] == 'l');
    assert("cosine"@[0] == 'c');
    assert("ip"@[0] == 'i');
}

/// The numeric value of metadata in the units of [`num::double_units`].
pub open spec fn value_units(v: MetaView) -> int {
    match v {
        MetaView::Int(i) => num::double_units(F64::of_int(i as int)),
        MetaView::Float(f) => num::double_units(f),
        _ => 0,
    }
}

/// Whether metadata is a number.
pub open spec fn is_numeric(v: MetaView) -> bool {
    match v {
        MetaView::Int(_) => true,
        MetaView::Float(f) => f.bits % 0x8000_0000_0000_0000 <= 0x7FF0_0000_0000_0000,
        _ => false,
    }
}

/// Texts and truth values equal themselves alone; integers compare exactly, and
/// an integer with a double, or two doubles, by value.
pub proof fn values_are_equal_by_kind(a: MetaView, b: MetaView)
    ensures
        a.same(b) == b.same(a),
        a is Str || a is Bool ==> (a.same(b) <==> a == b),
        a is Int && b is Int ==> (a.same(b) <==> a == b),
        is_numeric(a) && is_numeric(b) && (a is Float || b is Float) ==> (a.same(b) <==> value_units(a)
            == value_units(b)),
        a.same(b) && is_numeric(a) ==> is_numeric(b),
        a matches MetaView::Float(f) ==> (!is_numeric(a) ==> !a.same(b)),
        a.number() is Some <==> a is Int || a is Float,
{
    match (a, b) {
        (MetaView::Float(x), MetaView::Float(y)) => {
            if is_numeric(a) && is_numeric(b) {
                num::doubles_compare_by_value(x, y);
                num::doubles_compare_by_value(y, x);
            }
        },
        (MetaView::Int(i), MetaView::Float(y)) => {
            num::integers_convert_to_numbers(i);
            num::finite_patterns_are_below_infinity(F64::of_int(i as int));
            if is_numeric(b) {
                num::doubles_compare_by_value(F64::of_int(i as int), y);
            }
        },
        (MetaView::Float(x), MetaView::Int(j)) => {
            num::integers_convert_to_numbers(j);
            num::finite_patterns_are_below_infinity(F64::of_int(j as int));
            if is_numeric(a) {
                num::doubles_compare_by_value(x, F64::of_int(j as int));
            }
        },
        _ => {},
    }
}

/// A value stands for what it holds, whatever its kind.
pub proof fn values_stand_for_what_they_hold(v: MetadataValue)
    ensures
        v matches MetadataValue::Str(s) ==> v@ == MetaView::Str(s@),
        v matches MetadataValue::Bool(b) ==> v@ == MetaView::Bool(b),
        v matches MetadataValue::Int(i) ==> v@ == MetaView::Int(i),
        v matches MetadataValue::Float(f) ==> v@ == MetaView::Float(f),
{
}

/// Metadata that may be missing is missing, or what it holds.
pub proof fn missing_metadata_is_none(m: Metadata, t: String)
    ensures
        meta_opt(Some(m)) == Some(m@),
        meta_opt(None) is None,
        text_opt(Some(t)) == Some(t@),
        text_opt(None) is None,
{
}

} // verus!
