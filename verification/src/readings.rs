//! How the texts of numbers were read, and how numbers were written.
//!
//! Reading and writing the text of a floating-point number is left to the caller.
//! What came of it is kept here, each number by its bit pattern; where a text or
//! a number that is needed is not here yet, the functions that need it ask for it.

use vstd::prelude::*;

use crate::idmap::IdMap;
use crate::num::{F32, F64};
use crate::table::Table;

verus! {

/// How the texts of numbers were read, as a mathematical value.
pub struct ReadingsView {
    /// As single-precision numbers: the number, or the reader's message.
    pub singles: Map<Seq<char>, Result<F32, Seq<char>>>,
    /// As double-precision numbers: the number, or nothing where the text is
    /// none.
    pub doubles: Map<Seq<char>, Option<F64>>,
    /// The texts of double-precision numbers, by their bit patterns.
    pub texts: Map<u64, Seq<char>>,
}

/// How the texts of numbers were read.
pub struct Readings {
    singles: IdMap<Result<F32, String>>,
    doubles: IdMap<Option<F64>>,
    texts: Table<u64, String>,
}

/// A reading as a mathematical value.
pub open spec fn reading_view(r: Result<F32, String>) -> Result<F32, Seq<char>> {
    match r {
        Ok(x) => Ok(x),
        Err(m) => Err(m@),
    }
}

/// The readings of a map as mathematical values.
pub open spec fn reading_views(m: Map<Seq<char>, Result<F32, String>>) -> Map<
    Seq<char>,
    Result<F32, Seq<char>>,
> {
    Map::new(|k: Seq<char>| m.contains_key(k), |k: Seq<char>| reading_view(m[k]))
}

/// The texts of a map as mathematical values.
pub open spec fn text_views(m: Map<u64, String>) -> Map<u64, Seq<char>> {
    Map::new(|k: u64| m.contains_key(k), |k: u64| m[k]@)
}

impl View for Readings {
    type V = ReadingsView;

    closed spec fn view(&self) -> ReadingsView {
        ReadingsView {
            singles: reading_views(self.singles@),
            doubles: self.doubles@,
            texts: text_views(self.texts@),
        }
    }
}

impl Readings {
    /// Whether the tables are sound.
    pub closed spec fn wf(self) -> bool {
        self.singles.wf() && self.doubles.wf()
    }

    /// Nothing was read yet.
    pub fn new() -> (r: Readings)
        ensures
            r.wf(),
            r@.singles == Map::<Seq<char>, Result<F32, Seq<char>>>::empty(),
            r@.doubles == Map::<Seq<char>, Option<F64>>::empty(),
            r@.texts == Map::<u64, Seq<char>>::empty(),
    {
        Readings { singles: IdMap::new(), doubles: IdMap::new(), texts: Table::new() }
    }

    /// Keeps how a text was read as a single-precision number.
    pub fn add_single(&mut self, text: &str, read: Result<F32, String>)
        requires
            old(self).wf(),
        ensures
            final(self).wf(),
            final(self)@ == (ReadingsView {
                singles: old(self)@.singles.insert(text@, reading_view(read)),
                ..old(self)@
            }),
    {
        let ghost before = self.singles@;
        self.singles.insert(text.to_owned(), read);
        assert(reading_views(self.singles@) =~= reading_views(before).insert(text@, reading_view(read)));
    }

    /// Keeps how a text was read as a double-precision number.
    pub fn add_double(&mut self, text: &str, read: Option<F64>)
        requires
            old(self).wf(),
        ensures
            final(self).wf(),
            final(self)@ == (ReadingsView {
                doubles: old(self)@.doubles.insert(text@, read),
                ..old(self)@
            }),
    {
        self.doubles.insert(text.to_owned(), read);
    }

    /// Keeps how a double-precision number was written.
    pub fn add_text(&mut self, number: F64, text: String)
        requires
            old(self).wf(),
        ensures
            final(self).wf(),
            final(self)@ == (ReadingsView {
                texts: old(self)@.texts.insert(number.bits, text@),
                ..old(self)@
            }),
    {
        let ghost before = self.texts@;
        let ghost t = text@;
        self.texts.insert(number.bits, text);
        assert(text_views(self.texts@) =~= text_views(before).insert(number.bits, t));
    }

    /// How a text was read as a single-precision number, if it was.
    pub fn single(&self, text: &str) -> (r: Option<&Result<F32, String>>)
        requires
            self.wf(),
        ensures
            match r {
                Some(x) => self@.singles.contains_key(text@) && reading_view(*x) == self@.singles[text@],
                None => !self@.singles.contains_key(text@),
            },
    {
        self.singles.get(text)
    }

    /// How a text was read as a double-precision number, if it was.
    pub fn double(&self, text: &str) -> (r: Option<Option<F64>>)
        requires
            self.wf(),
        ensures
            match r {
                Some(x) => self@.doubles.contains_key(text@) && x == self@.doubles[text@],
                None => !self@.doubles.contains_key(text@),
            },
    {
        match self.doubles.get(text) {
            Some(x) => Some(*x),
            None => None,
        }
    }

    /// How a double-precision number was written, if it was.
    pub fn text(&self, number: F64) -> (r: Option<&String>)
        requires
            self.wf(),
        ensures
            match r {
                Some(t) => self@.texts.contains_key(number.bits) && t@ == self@.texts[number.bits],
                None => !self@.texts.contains_key(number.bits),
            },
    {
        self.texts.get(&number.bits)
    }
}

} // verus!
