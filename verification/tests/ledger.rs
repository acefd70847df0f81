use tithe::LedgerError;
use tithe::aggregate::summarize;
use tithe::entry::Entry;
use tithe::month::{Month, parse_month};
use tithe::num::{format_int, parse_i32, parse_i64};
use tithe::ops::{SummaryFilter, filter_entries, make_filter, summary_op};
use tithe::store::{append_text, header_line, read_entries};

fn cs(s: &str) -> Vec<char> {
    s.chars().collect()
}

fn to_s(v: &[char]) -> String {
    v.iter().collect()
}

fn entry(month: Month, year: i32, group: &str, subgroup: &str, amount: i64, note: &str) -> Entry {
    Entry {
        month,
        year,
        group: cs(group),
        subgroup: cs(subgroup),
        amount,
        note: cs(note),
    }
}

fn entries_eq(a: &Entry, b: &Entry) -> bool {
    a.month == b.month
        && a.year == b.year
        && a.group == b.group
        && a.subgroup == b.subgroup
        && a.amount == b.amount
        && a.note == b.note
}

#[test]
fn month_parses_name_abbreviation_and_number() {
    assert_eq!(parse_month(&cs("March")), Some(Month::March));
    assert_eq!(parse_month(&cs("Mar")), Some(Month::March));
    assert_eq!(parse_month(&cs("3")), Some(Month::March));
    assert_eq!(parse_month(&cs("January")), Some(Month::January));
    assert_eq!(parse_month(&cs("Dec")), Some(Month::December));
    assert_eq!(parse_month(&cs("12")), Some(Month::December));
    assert_eq!(parse_month(&cs("0")), None);
    assert_eq!(parse_month(&cs("13")), None);
    assert_eq!(parse_month(&cs("Marchh")), None);
    assert_eq!(parse_month(&cs("")), None);
}

#[test]
fn integer_text_round_trips() {
    let neg = format_int(-50);
    assert_eq!(to_s(&neg), "-50");
    assert_eq!(parse_i64(&neg), Some(-50));
    assert_eq!(parse_i64(&cs("0")), Some(0));
    assert_eq!(parse_i64(&cs("9223372036854775807")), Some(i64::MAX));
    assert_eq!(parse_i64(&cs("-9223372036854775808")), Some(i64::MIN));
    assert_eq!(parse_i64(&cs("9223372036854775808")), None);
    assert_eq!(parse_i64(&cs("12a")), None);
    assert_eq!(parse_i64(&cs("-")), None);
    assert_eq!(parse_i32(&cs("2147483648")), None);
    assert_eq!(parse_i32(&cs("2023")), Some(2023));
}

#[test]
fn header_written_only_for_new_store() {
    let e = entry(Month::March, 2023, "Food", "Groceries", -50, "");
    let fresh = append_text(false, &e).unwrap();
    let again = append_text(true, &e).unwrap();
    let fresh_s = to_s(&fresh);
    let again_s = to_s(&again);
    assert!(fresh_s.starts_with("month,year,group,subgroup,amount,note\n"));
    assert_eq!(fresh_s.matches("month,year,group").count(), 1);
    assert!(!again_s.contains("month,year,group"));
    assert_eq!(fresh_s, format!("month,year,group,subgroup,amount,note\n{again_s}"));
}

#[test]
fn add_round_trips_through_the_store() {
    let e = entry(Month::March, 2023, "Food", "Groceries", -50, "");
    let content = append_text(false, &e).unwrap();
    let read = read_entries(&content).unwrap();
    assert_eq!(read.len(), 1);
    assert!(entries_eq(&read[0], &e));
    assert_eq!(to_s(&read[0].note), "");
}

#[test]
fn appended_entry_is_read_back_last() {
    let e1 = entry(Month::March, 2023, "Food", "Groceries", -50, "weekly");
    let e2 = entry(Month::April, 2024, "Salary", "Job", 1000, "");
    let mut content = append_text(false, &e1).unwrap();
    content.extend(append_text(true, &e2).unwrap());
    let read = read_entries(&content).unwrap();
    assert_eq!(read.len(), 2);
    assert!(entries_eq(&read[0], &e1));
    assert!(entries_eq(&read[1], &e2));
}

#[test]
fn quoted_fields_round_trip() {
    let e = entry(Month::June, 2022, "a,b", "say \"hi\"", 7, "x,\"y\",z");
    let content = append_text(false, &e).unwrap();
    let read = read_entries(&content).unwrap();
    assert_eq!(read.len(), 1);
    assert!(entries_eq(&read[0], &e));
}

#[test]
fn line_breaks_cannot_be_encoded() {
    let e = entry(Month::June, 2022, "a", "b", 7, "two\nlines");
    assert_eq!(append_text(false, &e), Err(LedgerError::Serialization));
    let e2 = entry(Month::June, 2022, "a\rb", "b", 7, "");
    assert_eq!(append_text(true, &e2), Err(LedgerError::Serialization));
}

#[test]
fn malformed_rows_are_parse_errors_naming_the_row() {
    assert!(matches!(
        read_entries(&cs("month,year,group,subgroup,amount,note\nNotAMonth,2023,a,b,5,\n")),
        Err(LedgerError::Parse(1))
    ));
    assert!(matches!(
        read_entries(&cs("month,year,group,subgroup,amount,note\nMarch,20x3,a,b,5,\n")),
        Err(LedgerError::Parse(1))
    ));
    assert!(matches!(
        read_entries(&cs("month,year,group,subgroup,amount,note\nMarch,2023,a,b,5\n")),
        Err(LedgerError::Parse(1))
    ));
    assert!(matches!(
        read_entries(&cs("month,year,group,subgroup,amount,note\nMarch,2023,\"a,b,5,x\n")),
        Err(LedgerError::Parse(1))
    ));
    assert!(matches!(
        read_entries(&cs("month,\"oops\nMarch,2023,a,b,5,\n")),
        Err(LedgerError::Parse(0))
    ));
    assert!(matches!(
        read_entries(&cs(
            "month,year,group,subgroup,amount,note\nMarch,2023,a,b,5,\nApril,bad,c,d,6,\n"
        )),
        Err(LedgerError::Parse(2))
    ));
    assert!(matches!(
        summary_op(
            &cs("month,year,group,subgroup,amount,note\nMarch,2023,a,b,5,\nApril,bad,c,d,6,\n"),
            None,
            None
        ),
        Err(LedgerError::Parse(2))
    ));
    assert_eq!(LedgerError::Parse(2).message(), "a stored row is malformed");
}

#[test]
fn month_without_year_is_a_usage_error() {
    let content = header_line();
    for m in [
        Month::January,
        Month::February,
        Month::March,
        Month::April,
        Month::May,
        Month::June,
        Month::July,
        Month::August,
        Month::September,
        Month::October,
        Month::November,
        Month::December,
    ] {
        assert_eq!(summary_op(&content, Some(m), None), Err(LedgerError::Usage));
        assert!(matches!(make_filter(Some(m), None), Err(LedgerError::Usage)));
    }
    assert_eq!(
        LedgerError::Usage.message(),
        "month is specified, but year is not"
    );
}

#[test]
fn empty_store_summary_is_empty() {
    let content = header_line();
    let out = summary_op(&content, None, None).unwrap();
    assert_eq!(to_s(&out), "");
    let none: Vec<char> = Vec::new();
    let out2 = summary_op(&none, None, None).unwrap();
    assert_eq!(to_s(&out2), "");
}

#[test]
fn year_filter_keeps_exactly_that_year_in_order() {
    let es = vec![
        entry(Month::March, 2023, "a", "x", 1, ""),
        entry(Month::May, 2024, "b", "y", 2, ""),
        entry(Month::June, 2023, "c", "z", 3, ""),
    ];
    let kept = filter_entries(es, &SummaryFilter::Year(2023));
    assert_eq!(kept.len(), 2);
    assert_eq!(kept[0].amount, 1);
    assert_eq!(kept[1].amount, 3);
}

#[test]
fn month_and_year_filter_keeps_exact_matches() {
    let es = vec![
        entry(Month::March, 2023, "a", "x", 1, ""),
        entry(Month::March, 2024, "b", "y", 2, ""),
        entry(Month::June, 2023, "c", "z", 3, ""),
        entry(Month::March, 2023, "d", "w", 4, ""),
    ];
    let kept = filter_entries(es, &SummaryFilter::MonthYear(Month::March, 2023));
    assert_eq!(kept.len(), 2);
    assert_eq!(kept[0].amount, 1);
    assert_eq!(kept[1].amount, 4);
}

#[test]
fn summary_groups_and_totals() {
    let e1 = entry(Month::January, 2024, "Food", "Groceries", -50, "");
    let e2 = entry(Month::January, 2024, "Food", "Dining", -20, "");
    let e3 = entry(Month::January, 2024, "Salary", "Job", 1000, "");
    let mut content = append_text(false, &e1).unwrap();
    content.extend(append_text(true, &e2).unwrap());
    content.extend(append_text(true, &e3).unwrap());
    let out = to_s(&summary_op(&content, None, None).unwrap());
    let expected = format!(
        "January 2024\n\t{:<20}{:<20}{:<20}\n\t\t{:<20}{:<20}\n\t\t{:<20}{:<20}\n\t{:<20}{:<20}{:<20}\n\t\t{:<20}{:<20}\n",
        "Food", "", -70, "Groceries", -50, "Dining", -20, "Salary", "", 1000, "Job", 1000
    );
    assert_eq!(out, expected);
}

#[test]
fn summary_totals_by_level() {
    let es = vec![
        entry(Month::January, 2024, "Food", "Groceries", -50, ""),
        entry(Month::January, 2024, "Food", "Dining", -20, ""),
        entry(Month::January, 2024, "Salary", "Job", 1000, ""),
        entry(Month::January, 2024, "Food", "Groceries", -5, ""),
    ];
    let report = summarize(es);
    assert_eq!(report.len(), 1);
    let m = &report[0];
    assert_eq!(m.year, 2024);
    assert_eq!(m.month, Month::January);
    assert_eq!(m.groups.len(), 2);
    assert_eq!(to_s(&m.groups[0].name), "Food");
    assert_eq!(m.groups[0].total, -75);
    assert_eq!(m.groups[0].subs.len(), 2);
    assert_eq!(to_s(&m.groups[0].subs[0].name), "Groceries");
    assert_eq!(m.groups[0].subs[0].total, -55);
    assert_eq!(to_s(&m.groups[0].subs[1].name), "Dining");
    assert_eq!(m.groups[0].subs[1].total, -20);
    assert_eq!(to_s(&m.groups[1].name), "Salary");
    assert_eq!(m.groups[1].total, 1000);
    let group_sum: i128 = m.groups.iter().map(|g| g.total).sum();
    let leaf_sum: i128 = m.groups.iter().flat_map(|g| g.subs.iter()).map(|s| s.total).sum();
    assert_eq!(group_sum, -75 + 1000);
    assert_eq!(leaf_sum, group_sum);
}

#[test]
fn months_are_listed_chronologically() {
    let e1 = entry(Month::February, 2024, "a", "x", 1, "");
    let e2 = entry(Month::December, 2023, "b", "y", 2, "");
    let e3 = entry(Month::January, 2024, "c", "z", 3, "");
    let mut content = append_text(false, &e1).unwrap();
    content.extend(append_text(true, &e2).unwrap());
    content.extend(append_text(true, &e3).unwrap());
    let out = to_s(&summary_op(&content, None, None).unwrap());
    let dec = out.find("December 2023").unwrap();
    let jan = out.find("January 2024").unwrap();
    let feb = out.find("February 2024").unwrap();
    assert!(dec < jan && jan < feb);
}

#[test]
fn summary_with_year_filter_drops_other_years() {
    let e1 = entry(Month::March, 2023, "a", "x", 1, "");
    let e2 = entry(Month::March, 2024, "b", "y", 2, "");
    let mut content = append_text(false, &e1).unwrap();
    content.extend(append_text(true, &e2).unwrap());
    let out = to_s(&summary_op(&content, None, Some(2024)).unwrap());
    assert!(out.contains("March 2024"));
    assert!(!out.contains("2023"));
    let both = to_s(&summary_op(&content, Some(Month::March), Some(2023)).unwrap());
    assert!(both.contains("March 2023"));
    assert!(!both.contains("2024"));
}

#[test]
fn negative_years_are_stored_and_summarised() {
    let e = entry(Month::March, -44, "History", "Rome", 10, "");
    let content = append_text(false, &e).unwrap();
    let read = read_entries(&content).unwrap();
    assert!(entries_eq(&read[0], &e));
    let out = to_s(&summary_op(&content, None, Some(-44)).unwrap());
    assert!(out.contains("March -44"));
}
