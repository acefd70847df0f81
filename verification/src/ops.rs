//! The two operations: adding an entry (its text is produced by
//! `crate::store::append_text`) and the summary, which reads every stored
//! entry, applies the optional month and year filters, aggregates, and
//! renders the report.

use vstd::prelude::*;
use crate::LedgerError;
use crate::aggregate::{month_views, report_of, summarize};
use crate::codec::parse_entries_spec;
use crate::entry::{Entry, EntryV, views_of};
use crate::month::Month;
use crate::render::{render, render_report};
use crate::store::read_entries;

verus! {

/// The summary's time filter, as the dispatcher derives it from the
/// optional month and year parameters.
#[derive(Clone, Copy, Debug, PartialEq, Eq, Structural)]
pub enum SummaryFilter {
    All,
    Year(i32),
    MonthYear(Month, i32),
}

/// Whether an entry passes the filter.
pub open spec fn summary_matches(f: SummaryFilter, e: EntryV) -> bool {
    match f {
        SummaryFilter::All => true,
        SummaryFilter::Year(y) => e.year == y as int,
        SummaryFilter::MonthYear(m, y) => e.year == y as int && e.month == m,
    }
}

/// The filter as a predicate on entries.
pub open spec fn filter_of(f: SummaryFilter) -> spec_fn(EntryV) -> bool {
    |e: EntryV| summary_matches(f, e)
}

/// The filter that the given parameters denote, when they are a valid
/// combination.
pub open spec fn filter_spec(month: Option<Month>, year: Option<i32>) -> SummaryFilter {
    match (month, year) {
        (Option::None, Option::None) => SummaryFilter::All,
        (Option::None, Option::Some(y)) => SummaryFilter::Year(y),
        (Option::Some(m), Option::Some(y)) => SummaryFilter::MonthYear(m, y),
        (Option::Some(_), Option::None) => SummaryFilter::All,
    }
}

/// Derives the summary's filter from its parameters. A month without a
/// year is rejected: months repeat across years, so the combination means
/// nothing.
pub fn make_filter(month: Option<Month>, year: Option<i32>) -> (r: Result<
    SummaryFilter,
    LedgerError,
>)
    ensures
        (month is Some && year is None) <==> (r matches Err(e) && e == LedgerError::Usage),
        !(month is Some && year is None) ==> r == Ok::<SummaryFilter, LedgerError>(
            filter_spec(month, year),
        ),
{
    match (month, year) {
        (None, None) => Ok(SummaryFilter::All),
        (Some(_), None) => Err(LedgerError::Usage),
        (None, Some(y)) => Ok(SummaryFilter::Year(y)),
        (Some(m), Some(y)) => Ok(SummaryFilter::MonthYear(m, y)),
    }
}

/// The entries that pass the filter, in their original relative order.
pub fn filter_entries(entries: Vec<Entry>, f: &SummaryFilter) -> (r: Vec<Entry>)
    ensures
        views_of(r@) == views_of(entries@).filter(filter_of(*f)),
{
    broadcast use Seq::lemma_filter_push;

    let ghost orig = views_of(entries@);
    let ghost p = filter_of(*f);
    let mut entries = entries;
    let mut out: Vec<Entry> = Vec::new();
    let ghost mut done: Seq<EntryV> = Seq::empty();
    proof {
        assert(done + views_of(entries@) =~= orig);
        assert(views_of(out@) =~= done.filter(p));
    }
    while entries.len() > 0
        invariant
            orig == done + views_of(entries@),
            views_of(out@) == done.filter(p),
            p == filter_of(*f),
        decreases entries@.len(),
    {
        let ghost before = views_of(entries@);
        let e = entries.remove(0);
        let ghost done0 = done;
        proof {
            done = done.push(e@);
            assert(before[0] == e@);
            assert(views_of(entries@) =~= before.skip(1));
        }
        let keep = match f {
            SummaryFilter::All => true,
            SummaryFilter::Year(y) => e.year == *y,
            SummaryFilter::MonthYear(m, y) => e.year == *y && e.month == *m,
        };
        proof {
            assert(keep == p(e@));
            assert(done == done0.push(e@));
            done0.lemma_filter_push(e@, p);
        }
        if keep {
            out.push(e);
            proof {
                assert(views_of(out@) =~= done0.filter(p).push(e@));
            }
        }
        proof {
            assert(done + views_of(entries@) =~= done0 + before);
        }
    }
    proof {
        assert(done =~= orig);
    }
    out
}

/// The summary operation: reads the store's text, filters by the optional
/// month and year, and renders the grouped totals. A month without a year
/// is a usage error, reported before the store is read; a malformed store
/// is a parse error naming the first malformed row; otherwise the result
/// is exactly the rendered report of the filtered entries.
pub fn summary_op(content: &Vec<char>, month: Option<Month>, year: Option<i32>) -> (r: Result<
    Vec<char>,
    LedgerError,
>)
    ensures
        (month is Some && year is None) ==> (r matches Err(e) && e == LedgerError::Usage),
        !(month is Some && year is None) && parse_entries_spec(content@) is None ==> (r matches Err(
            e,
        ) && (e matches LedgerError::Parse(n) && n as int == crate::store::store_bad_row(
            content@,
        ))),
        !(month is Some && year is None) ==> (parse_entries_spec(content@) matches Some(es)
            ==> (r matches Ok(out) && out@ == render_report(
            report_of(es.filter(filter_of(filter_spec(month, year)))),
        ))),
{
    let f = match make_filter(month, year) {
        Err(e) => {
            return Err(e);
        },
        Ok(f) => f,
    };
    let entries = match read_entries(content) {
        Err(e) => {
            return Err(e);
        },
        Ok(es) => es,
    };
    let ghost es_spec = parse_entries_spec(content@)->Some_0;
    let filtered = filter_entries(entries, &f);
    let ghost fvs = views_of(filtered@);
    let flen = filtered.len();
    let report = summarize(filtered);
    proof {
        assert(crate::aggregate::amounts_i64(fvs));
        assert(fvs.len() <= 0xFFFF_FFFF_FFFF_FFFF) by {
            assert(fvs.len() == flen as int);
        }
        crate::aggregate::lemma_report_totals_in_range(fvs);
    }
    let out = render(&report);
    proof {
        assert(month_views(report@) == report_of(es_spec.filter(filter_of(filter_spec(
            month,
            year,
        )))));
    }
    Ok(out)
}

} // verus!
