//! The record schema: one persisted financial entry.

use vstd::prelude::*;
use crate::month::Month;

verus! {

/// One persisted financial record: a calendar date (month and year), a
/// two-level category (group and subgroup), a signed amount, and a free-text
/// note. Duplicates are permitted; entries are never mutated once stored.
pub struct Entry {
    pub month: Month,
    pub year: i32,
    pub group: Vec<char>,
    pub subgroup: Vec<char>,
    pub amount: i64,
    pub note: Vec<char>,
}

/// The mathematical value of an `Entry`.
pub ghost struct EntryV {
    pub month: Month,
    pub year: int,
    pub group: Seq<char>,
    pub subgroup: Seq<char>,
    pub amount: int,
    pub note: Seq<char>,
}

impl View for Entry {
    type V = EntryV;

    open spec fn view(&self) -> EntryV {
        EntryV {
            month: self.month,
            year: self.year as int,
            group: self.group@,
            subgroup: self.subgroup@,
            amount: self.amount as int,
            note: self.note@,
        }
    }
}

impl EntryV {
    /// The chronological position of the entry's calendar month: months in
    /// order get consecutive values, across year boundaries.
    pub open spec fn key(self) -> int {
        self.year * 12 + self.month.num() - 1
    }
}

impl Entry {
    /// The chronological position of the entry's calendar month.
    pub fn key(&self) -> (k: i64)
        ensures
            k as int == self@.key(),
    {
        (self.year as i64) * 12 + (self.number_of_month() as i64) - 1
    }

    fn number_of_month(&self) -> (n: u8)
        ensures
            n as int == self.month.num(),
    {
        self.month.number()
    }

}

/// The views of a vector of entries.
pub open spec fn views_of(es: Seq<Entry>) -> Seq<EntryV> {
    es.map_values(|e: Entry| e@)
}

} // verus!
