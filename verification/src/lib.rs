//! A small personal ledger: dated income/expense entries with a two-level
//! category taxonomy, persisted as delimited text rows, summarised by
//! chronological month, then category group, then subgroup.

use vstd::prelude::*;

pub mod aggregate;
pub mod codec;
pub mod entry;
pub mod month;
pub mod num;
pub mod ops;
pub mod render;
pub mod store;
pub mod text;

verus! {

/// The failures the ledger logic itself can report. Failures of the
/// surrounding file handling are reported by the caller, not here.
#[derive(Clone, Copy, Debug, PartialEq, Eq, Structural)]
pub enum LedgerError {
    /// An invalid combination or value of operation parameters.
    Usage,
    /// A stored row is malformed: wrong field count, bad quoting, or an
    /// unparsable month, year or amount. Carries the position of the first
    /// malformed row in the file, counting the header as row zero.
    Parse(usize),
    /// An entry cannot be encoded as a row (a text field holds a line break).
    Serialization,
}

impl LedgerError {
    /// A human-readable description, for the caller to print.
    pub fn message(&self) -> (r: &'static str)
        ensures
            *self is Usage ==> r@ == "month is specified, but year is not"@,
            *self is Parse ==> r@ == "a stored row is malformed"@,
            *self is Serialization ==> r@ == "an entry cannot be encoded"@,
    {
        match self {
            LedgerError::Usage => "month is specified, but year is not",
            LedgerError::Parse(_) => "a stored row is malformed",
            LedgerError::Serialization => "an entry cannot be encoded",
        }
    }
}

} // verus!
