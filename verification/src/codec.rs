//! The persisted row format: delimited tabular text, one header row naming
//! the fields, then one row per entry in append order. Fields are written
//! as plain text and quoted only when they hold the delimiter or a quote;
//! a quote inside a quoted field is doubled. The format is line-based, so a
//! field holding a line break cannot be encoded and is rejected.
//!
//! This module gives the format's mathematical definition — encoding and
//! parsing as functions on character sequences — and proves that parsing
//! inverts encoding.

use vstd::prelude::*;
use crate::entry::EntryV;
use crate::month::Month;
use crate::num::{dec_int, parse_int_spec};

verus! {

/// A field that can be written on one line: no line breaks.
pub open spec fn is_clean(f: Seq<char>) -> bool {
    forall|i: int| 0 <= i < f.len() ==> #[trigger] f[i] != '\n' && f[i] != '\r'
}

/// Whether a field must be quoted: it holds the delimiter or a quote.
pub open spec fn needs_quote(f: Seq<char>) -> bool {
    exists|i: int| 0 <= i < f.len() && (#[trigger] f[i] == ',' || f[i] == '"')
}

/// The body of a quoted field: every quote doubled.
pub open spec fn esc(f: Seq<char>) -> Seq<char>
    decreases f.len(),
{
    if f.len() == 0 {
        Seq::empty()
    } else {
        esc(f.drop_last()) + (if f.last() == '"' {
            seq!['"', '"']
        } else {
            seq![f.last()]
        })
    }
}

/// One encoded field.
pub open spec fn enc_field(f: Seq<char>) -> Seq<char> {
    if needs_quote(f) {
        seq!['"'] + esc(f) + seq!['"']
    } else {
        f
    }
}

/// Encoded fields joined by the delimiter.
pub open spec fn enc_fields(fs: Seq<Seq<char>>) -> Seq<char>
    decreases fs.len(),
{
    if fs.len() == 0 {
        Seq::empty()
    } else if fs.len() == 1 {
        enc_field(fs[0])
    } else {
        enc_field(fs[0]) + seq![','] + enc_fields(fs.skip(1))
    }
}

/// One encoded row: its fields, then a line break.
pub open spec fn enc_line(fs: Seq<Seq<char>>) -> Seq<char> {
    enc_fields(fs) + seq!['\n']
}

/// Parses the body of a quoted field, after its opening quote: yields the
/// field's value and what follows the closing quote, or `None` when the
/// quote is never closed.
pub open spec fn parse_quoted(s: Seq<char>) -> Option<(Seq<char>, Seq<char>)>
    decreases s.len(),
{
    if s.len() == 0 {
        None
    } else if s[0] == '"' {
        if s.len() >= 2 && s[1] == '"' {
            match parse_quoted(s.skip(2)) {
                Some(p) => Some((seq!['"'] + p.0, p.1)),
                None => None,
            }
        } else {
            Some((Seq::empty(), s.skip(1)))
        }
    } else {
        match parse_quoted(s.skip(1)) {
            Some(p) => Some((seq![s[0]] + p.0, p.1)),
            None => None,
        }
    }
}

/// Splits an unquoted field from what follows: the value runs to the first
/// delimiter; the rest begins with that delimiter, or is empty.
pub open spec fn split_comma(s: Seq<char>) -> (Seq<char>, Seq<char>)
    decreases s.len(),
{
    if s.len() == 0 {
        (Seq::empty(), Seq::empty())
    } else if s[0] == ',' {
        (Seq::empty(), s)
    } else {
        let p = split_comma(s.skip(1));
        (seq![s[0]] + p.0, p.1)
    }
}

/// Parses one field: quoted when it opens with a quote, plain otherwise.
/// Yields the value and the rest, which is empty or begins with the
/// delimiter.
pub open spec fn parse_field(s: Seq<char>) -> Option<(Seq<char>, Seq<char>)> {
    if s.len() > 0 && s[0] == '"' {
        match parse_quoted(s.skip(1)) {
            Some(p) => if p.1.len() == 0 || p.1[0] == ',' {
                Some(p)
            } else {
                None
            },
            None => None,
        }
    } else {
        Some(split_comma(s))
    }
}

pub proof fn lemma_parse_quoted_len(s: Seq<char>)
    ensures
        parse_quoted(s) matches Some(p) ==> p.1.len() < s.len(),
    decreases s.len(),
{
    if s.len() > 0 {
        lemma_parse_quoted_len(s.skip(1));
        if s.len() >= 2 {
            lemma_parse_quoted_len(s.skip(2));
        }
    }
}

pub proof fn lemma_split_comma_len(s: Seq<char>)
    ensures
        split_comma(s).1.len() <= s.len(),
    decreases s.len(),
{
    if s.len() > 0 && s[0] != ',' {
        lemma_split_comma_len(s.skip(1));
    }
}

pub proof fn lemma_parse_field_len(s: Seq<char>)
    ensures
        parse_field(s) matches Some(p) ==> p.1.len() <= s.len(),
{
    lemma_split_comma_len(s);
    if s.len() > 0 && s[0] == '"' {
        lemma_parse_quoted_len(s.skip(1));
    }
}

/// Parses the fields of one row.
pub open spec fn parse_fields(s: Seq<char>) -> Option<Seq<Seq<char>>>
    decreases s.len(),
    via parse_fields_dec
{
    match parse_field(s) {
        None => None,
        Some(p) => if p.1.len() == 0 {
            Some(seq![p.0])
        } else {
            match parse_fields(p.1.skip(1)) {
                None => None,
                Some(rest) => Some(seq![p.0] + rest),
            }
        },
    }
}

#[via_fn]
proof fn parse_fields_dec(s: Seq<char>) {
    lemma_parse_field_len(s);
}

/// Splits the first line from a text: the line runs to the first line
/// break, which is consumed; the rest follows it.
pub open spec fn take_line(s: Seq<char>) -> (Seq<char>, Seq<char>)
    decreases s.len(),
{
    if s.len() == 0 {
        (Seq::empty(), Seq::empty())
    } else if s[0] == '\n' {
        (Seq::empty(), s.skip(1))
    } else {
        let p = take_line(s.skip(1));
        (seq![s[0]] + p.0, p.1)
    }
}

pub proof fn lemma_take_line_len(s: Seq<char>)
    ensures
        s.len() > 0 ==> take_line(s).1.len() < s.len(),
    decreases s.len(),
{
    if s.len() > 0 && s[0] != '\n' {
        lemma_take_line_len(s.skip(1));
        if s.skip(1).len() == 0 {
            assert(take_line(s.skip(1)) == (Seq::<char>::empty(), Seq::<char>::empty()));
        }
    }
}

/// Parses a text as a sequence of rows, one per line.
pub open spec fn parse_rows(s: Seq<char>) -> Option<Seq<Seq<Seq<char>>>>
    decreases s.len(),
    via parse_rows_dec
{
    if s.len() == 0 {
        Some(Seq::empty())
    } else {
        let p = take_line(s);
        match parse_fields(p.0) {
            None => None,
            Some(fs) => match parse_rows(p.1) {
                None => None,
                Some(rows) => Some(seq![fs] + rows),
            },
        }
    }
}

#[via_fn]
proof fn parse_rows_dec(s: Seq<char>) {
    lemma_take_line_len(s);
}

// ------------------------------------------------------------------
// Rows and entries
// ------------------------------------------------------------------

/// The fields of one data row, in schema order: month, year, group,
/// subgroup, amount, note.
pub open spec fn row_of(e: EntryV) -> Seq<Seq<char>> {
    seq![e.month.name_spec(), dec_int(e.year), e.group, e.subgroup, dec_int(e.amount), e.note]
}

/// Whether every text field of the entry can be encoded.
pub open spec fn entry_clean(e: EntryV) -> bool {
    is_clean(e.group) && is_clean(e.subgroup) && is_clean(e.note)
}

/// Whether the entry's numbers fit the schema's machine types.
pub open spec fn entry_in_range(e: EntryV) -> bool {
    i32::MIN <= e.year <= i32::MAX && i64::MIN <= e.amount <= i64::MAX
}

/// Parses the fields of one data row as an entry.
pub open spec fn parse_row(fs: Seq<Seq<char>>) -> Option<EntryV> {
    if fs.len() != 6 {
        None
    } else {
        match crate::month::month_from_text(fs[0]) {
            None => None,
            Some(m) => match parse_int_spec(fs[1]) {
                None => None,
                Some(y) => if !(i32::MIN <= y <= i32::MAX) {
                    None
                } else {
                    match parse_int_spec(fs[4]) {
                        None => None,
                        Some(a) => if !(i64::MIN <= a <= i64::MAX) {
                            None
                        } else {
                            Some(
                                EntryV {
                                    month: m,
                                    year: y,
                                    group: fs[2],
                                    subgroup: fs[3],
                                    amount: a,
                                    note: fs[5],
                                },
                            )
                        },
                    }
                },
            },
        }
    }
}

/// Parses a sequence of data rows as entries; any malformed row fails the
/// whole parse.
pub open spec fn rows_to_entries(rows: Seq<Seq<Seq<char>>>) -> Option<Seq<EntryV>>
    decreases rows.len(),
{
    if rows.len() == 0 {
        Some(Seq::empty())
    } else {
        match parse_row(rows[0]) {
            None => None,
            Some(e) => match rows_to_entries(rows.skip(1)) {
                None => None,
                Some(es) => Some(seq![e] + es),
            },
        }
    }
}

/// What reading a whole store yields: nothing for an empty store;
/// otherwise every row after the header, parsed as entries.
pub open spec fn parse_entries_spec(c: Seq<char>) -> Option<Seq<EntryV>> {
    if c.len() == 0 {
        Some(Seq::empty())
    } else {
        match parse_rows(c) {
            None => None,
            Some(rows) => if rows.len() == 0 {
                Some(Seq::empty())
            } else {
                rows_to_entries(rows.skip(1))
            },
        }
    }
}

/// The header row: the field names in schema order.
pub open spec fn header_row() -> Seq<Seq<char>> {
    seq![
        seq!['m', 'o', 'n', 't', 'h'],
        seq!['y', 'e', 'a', 'r'],
        seq!['g', 'r', 'o', 'u', 'p'],
        seq!['s', 'u', 'b', 'g', 'r', 'o', 'u', 'p'],
        seq!['a', 'm', 'o', 'u', 'n', 't'],
        seq!['n', 'o', 't', 'e'],
    ]
}

/// The header line that a freshly created store begins with.
pub open spec fn header_text() -> Seq<char> {
    enc_line(header_row())
}


// ------------------------------------------------------------------
// Parsing inverts encoding
// ------------------------------------------------------------------

/// No line break anywhere in a text.
pub open spec fn no_nl(s: Seq<char>) -> bool {
    forall|i: int| 0 <= i < s.len() ==> #[trigger] s[i] != '\n'
}

proof fn lemma_esc_app(a: Seq<char>, b: Seq<char>)
    ensures
        esc(a + b) == esc(a) + esc(b),
    decreases b.len(),
{
    if b.len() == 0 {
        assert(a + b =~= a);
        assert(esc(a) + esc(b) =~= esc(a));
    } else {
        lemma_esc_app(a, b.drop_last());
        assert((a + b).drop_last() =~= a + b.drop_last());
        assert((a + b).last() == b.last());
        let arm = if b.last() == '"' { seq!['"', '"'] } else { seq![b.last()] };
        assert(esc(a + b) == esc(a) + esc(b.drop_last()) + arm);
        assert(esc(b) == esc(b.drop_last()) + arm);
        assert(esc(a) + esc(b.drop_last()) + arm =~= esc(a) + (esc(b.drop_last()) + arm));
    }
}

proof fn lemma_esc_single(c: char)
    ensures
        esc(seq![c]) == (if c == '"' { seq!['"', '"'] } else { seq![c] }),
{
    assert(seq![c].drop_last() =~= Seq::<char>::empty());
    assert(esc(Seq::<char>::empty()) + (if c == '"' { seq!['"', '"'] } else { seq![c] }) =~= (
    if c == '"' { seq!['"', '"'] } else { seq![c] }));
}

proof fn lemma_parse_quoted_enc(f: Seq<char>, tail: Seq<char>)
    requires
        tail.len() == 0 || tail[0] == ',',
    ensures
        parse_quoted(esc(f) + seq!['"'] + tail) == Some((f, tail)),
    decreases f.len(),
{
    let s = esc(f) + seq!['"'] + tail;
    if f.len() == 0 {
        assert(s =~= seq!['"'] + tail);
        assert(s[0] == '"');
        if s.len() >= 2 {
            assert(s[1] == tail[0]);
            assert(s[1] != '"');
        }
        assert(s.skip(1) =~= tail);
        assert(parse_quoted(s) == Some((Seq::<char>::empty(), tail)));
        assert(f =~= Seq::<char>::empty());
    } else {
        let c = f[0];
        let g = f.skip(1);
        assert(f =~= seq![c] + g);
        lemma_esc_app(seq![c], g);
        lemma_esc_single(c);
        lemma_parse_quoted_enc(g, tail);
        if c == '"' {
            assert(esc(f) == seq!['"', '"'] + esc(g));
            assert(s =~= seq!['"', '"'] + (esc(g) + seq!['"'] + tail));
            assert(s[0] == '"');
            assert(s[1] == '"');
            assert(s.len() >= 2);
            assert(s.skip(2) =~= esc(g) + seq!['"'] + tail);
            assert(parse_quoted(s) == Some((seq!['"'] + g, tail)));
            assert(seq!['"'] + g =~= f);
        } else {
            assert(esc(f) == seq![c] + esc(g));
            assert(s =~= seq![c] + (esc(g) + seq!['"'] + tail));
            assert(s[0] == c);
            assert(s.skip(1) =~= esc(g) + seq!['"'] + tail);
            assert(parse_quoted(s) == Some((seq![c] + g, tail)));
            assert(seq![c] + g =~= f);
        }
    }
}

proof fn lemma_split_comma_enc(f: Seq<char>, tail: Seq<char>)
    requires
        forall|i: int| 0 <= i < f.len() ==> #[trigger] f[i] != ',',
        tail.len() == 0 || tail[0] == ',',
    ensures
        split_comma(f + tail) == (f, tail),
    decreases f.len(),
{
    let s = f + tail;
    if f.len() == 0 {
        assert(s =~= tail);
        if tail.len() == 0 {
            assert(split_comma(s) == (Seq::<char>::empty(), Seq::<char>::empty()));
            assert(Seq::<char>::empty() =~= tail);
        } else {
            assert(s[0] == ',');
        }
        assert(f =~= Seq::<char>::empty());
    } else {
        assert(s[0] == f[0]);
        assert(s[0] != ',');
        lemma_split_comma_enc(f.skip(1), tail);
        assert(s.skip(1) =~= f.skip(1) + tail);
        assert(split_comma(s) == (seq![f[0]] + f.skip(1), tail));
        assert(seq![f[0]] + f.skip(1) =~= f);
    }
}

proof fn lemma_parse_field_enc(f: Seq<char>, tail: Seq<char>)
    requires
        tail.len() == 0 || tail[0] == ',',
    ensures
        parse_field(enc_field(f) + tail) == Some((f, tail)),
{
    let s = enc_field(f) + tail;
    if needs_quote(f) {
        assert(s =~= seq!['"'] + (esc(f) + seq!['"'] + tail));
        assert(s[0] == '"');
        assert(s.skip(1) =~= esc(f) + seq!['"'] + tail);
        lemma_parse_quoted_enc(f, tail);
    } else {
        assert(forall|i: int| 0 <= i < f.len() ==> #[trigger] f[i] != ',' && f[i] != '"');
        assert(s =~= f + tail);
        if f.len() > 0 {
            assert(s[0] == f[0]);
            assert(s[0] != '"');
            lemma_split_comma_enc(f, tail);
        } else if tail.len() == 0 {
            assert(s.len() == 0);
            assert(split_comma(s) == (Seq::<char>::empty(), Seq::<char>::empty()));
            assert(Seq::<char>::empty() =~= f);
            assert(Seq::<char>::empty() =~= tail);
        } else {
            assert(s[0] == ',');
            assert(s[0] != '"');
            lemma_split_comma_enc(f, tail);
        }
    }
}

proof fn lemma_parse_fields_enc(fs: Seq<Seq<char>>)
    requires
        fs.len() >= 1,
    ensures
        parse_fields(enc_fields(fs)) == Some(fs),
    decreases fs.len(),
{
    if fs.len() == 1 {
        let s = enc_field(fs[0]);
        assert(s =~= enc_field(fs[0]) + Seq::<char>::empty());
        lemma_parse_field_enc(fs[0], Seq::empty());
        assert(parse_fields(s) == Some(seq![fs[0]]));
        assert(seq![fs[0]] =~= fs);
    } else {
        let tail = seq![','] + enc_fields(fs.skip(1));
        assert(enc_fields(fs) =~= enc_field(fs[0]) + tail);
        assert(tail[0] == ',');
        lemma_parse_field_enc(fs[0], tail);
        assert(tail.skip(1) =~= enc_fields(fs.skip(1)));
        lemma_parse_fields_enc(fs.skip(1));
        assert(parse_fields(enc_fields(fs)) == Some(seq![fs[0]] + fs.skip(1)));
        assert(seq![fs[0]] + fs.skip(1) =~= fs);
    }
}

proof fn lemma_esc_no_nl(f: Seq<char>)
    requires
        is_clean(f),
    ensures
        no_nl(esc(f)),
    decreases f.len(),
{
    if f.len() > 0 {
        assert(is_clean(f.drop_last())) by {
            assert(forall|i: int| 0 <= i < f.len() - 1 ==> f.drop_last()[i] == f[i]);
        }
        lemma_esc_no_nl(f.drop_last());
        assert(f.last() != '\n');
    }
}

proof fn lemma_enc_field_no_nl(f: Seq<char>)
    requires
        is_clean(f),
    ensures
        no_nl(enc_field(f)),
{
    if needs_quote(f) {
        lemma_esc_no_nl(f);
    }
}

proof fn lemma_enc_fields_no_nl(fs: Seq<Seq<char>>)
    requires
        forall|i: int| 0 <= i < fs.len() ==> is_clean(#[trigger] fs[i]),
    ensures
        no_nl(enc_fields(fs)),
    decreases fs.len(),
{
    if fs.len() == 0 {
    } else if fs.len() == 1 {
        lemma_enc_field_no_nl(fs[0]);
    } else {
        lemma_enc_field_no_nl(fs[0]);
        assert(forall|i: int| 0 <= i < fs.skip(1).len() ==> is_clean(#[trigger] fs.skip(1)[i]))
            by {
            assert(forall|i: int| 0 <= i < fs.len() - 1 ==> fs.skip(1)[i] == fs[i + 1]);
        }
        lemma_enc_fields_no_nl(fs.skip(1));
    }
}

proof fn lemma_take_line_enc(x: Seq<char>, r: Seq<char>)
    requires
        no_nl(x),
    ensures
        take_line(x + seq!['\n'] + r) == (x, r),
    decreases x.len(),
{
    let s = x + seq!['\n'] + r;
    if x.len() == 0 {
        assert(s =~= seq!['\n'] + r);
        assert(s[0] == '\n');
        assert(s.skip(1) =~= r);
        assert(x =~= Seq::<char>::empty());
    } else {
        assert(s[0] == x[0]);
        assert(s[0] != '\n');
        assert(no_nl(x.skip(1))) by {
            assert(forall|i: int| 0 <= i < x.len() - 1 ==> x.skip(1)[i] == x[i + 1]);
        }
        lemma_take_line_enc(x.skip(1), r);
        assert(s.skip(1) =~= x.skip(1) + seq!['\n'] + r);
        assert(take_line(s) == (seq![x[0]] + x.skip(1), r));
        assert(seq![x[0]] + x.skip(1) =~= x);
    }
}

proof fn lemma_take_line_append(c: Seq<char>, x2: Seq<char>)
    requires
        c.len() > 0,
        c.last() == '\n',
    ensures
        take_line(c + x2).0 == take_line(c).0,
        take_line(c + x2).1 == take_line(c).1 + x2,
        take_line(c).1.len() == 0 || take_line(c).1.last() == '\n',
    decreases c.len(),
{
    let s = c + x2;
    assert(s[0] == c[0]);
    if c[0] == '\n' {
        assert(take_line(c) == (Seq::<char>::empty(), c.skip(1)));
        assert(s.skip(1) =~= c.skip(1) + x2);
        if c.len() > 1 {
            assert(c.skip(1).last() == c.last());
        }
    } else {
        assert(c.len() > 1) by {
            assert(c.last() == '\n');
        }
        assert(c.skip(1).len() > 0);
        assert(c.skip(1).last() == c.last());
        lemma_take_line_append(c.skip(1), x2);
        assert(s.skip(1) =~= c.skip(1) + x2);
        assert(take_line(s).0 == seq![c[0]] + take_line(c.skip(1) + x2).0);
        assert(take_line(c).0 == seq![c[0]] + take_line(c.skip(1)).0);
    }
}

/// One encoded row, alone, parses to exactly that row.
proof fn lemma_parse_rows_single(fs: Seq<Seq<char>>)
    requires
        fs.len() >= 1,
        forall|i: int| 0 <= i < fs.len() ==> is_clean(#[trigger] fs[i]),
    ensures
        parse_rows(enc_line(fs)) == Some(seq![fs]),
{
    let s = enc_line(fs);
    assert(s.len() > 0);
    lemma_enc_fields_no_nl(fs);
    assert(s =~= enc_fields(fs) + seq!['\n'] + Seq::<char>::empty());
    lemma_take_line_enc(enc_fields(fs), Seq::empty());
    assert(take_line(s) == (enc_fields(fs), Seq::<char>::empty()));
    lemma_parse_fields_enc(fs);
    assert(parse_rows(Seq::<char>::empty()) == Some(Seq::<Seq<Seq<char>>>::empty()));
    assert(parse_rows(s) == Some(seq![fs] + Seq::<Seq<Seq<char>>>::empty()));
    assert(seq![fs] + Seq::<Seq<Seq<char>>>::empty() =~= seq![fs]);
}

/// Appending one encoded row to a well-formed, line-complete text appends
/// exactly that row to what parses.
proof fn lemma_parse_rows_append(c: Seq<char>, rows: Seq<Seq<Seq<char>>>, fs: Seq<Seq<char>>)
    requires
        parse_rows(c) == Some(rows),
        c.len() == 0 || c.last() == '\n',
        fs.len() >= 1,
        forall|i: int| 0 <= i < fs.len() ==> is_clean(#[trigger] fs[i]),
    ensures
        parse_rows(c + enc_line(fs)) == Some(rows.push(fs)),
    decreases c.len(),
{
    if c.len() == 0 {
        assert(c + enc_line(fs) =~= enc_line(fs));
        lemma_parse_rows_single(fs);
        assert(rows =~= Seq::<Seq<Seq<char>>>::empty());
        assert(seq![fs] =~= rows.push(fs));
    } else {
        let x2 = enc_line(fs);
        let l = take_line(c).0;
        let r = take_line(c).1;
        lemma_take_line_append(c, x2);
        lemma_take_line_len(c);
        let fs0 = parse_fields(l)->Some_0;
        let rows1 = parse_rows(r)->Some_0;
        assert(rows == seq![fs0] + rows1);
        lemma_parse_rows_append(r, rows1, fs);
        assert((c + x2).len() > 0);
        assert(take_line(c + x2) == (l, r + x2));
        assert(parse_rows(c + x2) == Some(seq![fs0] + rows1.push(fs)));
        assert(seq![fs0] + rows1.push(fs) =~= rows.push(fs));
    }
}

proof fn lemma_rows_to_entries_push(rs: Seq<Seq<Seq<char>>>, r: Seq<Seq<char>>)
    ensures
        rows_to_entries(rs.push(r)) == (match rows_to_entries(rs) {
            None => None,
            Some(es) => match parse_row(r) {
                None => None::<Seq<EntryV>>,
                Some(e) => Some(es.push(e)),
            },
        }),
    decreases rs.len(),
{
    if rs.len() == 0 {
        assert(rs.push(r) =~= seq![r]);
        assert(rows_to_entries(rs) == Some(Seq::<EntryV>::empty()));
        assert(seq![r].skip(1) =~= Seq::<Seq<Seq<char>>>::empty());
        if parse_row(r) is Some {
            let e = parse_row(r)->Some_0;
            assert(rows_to_entries(Seq::<Seq<Seq<char>>>::empty()) == Some(Seq::<EntryV>::empty()));
            assert(rows_to_entries(seq![r]) == Some(seq![e] + Seq::<EntryV>::empty()));
            assert(seq![e] + Seq::<EntryV>::empty() =~= Seq::<EntryV>::empty().push(e));
        }
    } else {
        let w = rs.push(r);
        assert(w[0] == rs[0]);
        assert(w.skip(1) =~= rs.skip(1).push(r));
        lemma_rows_to_entries_push(rs.skip(1), r);
        if parse_row(rs[0]) is Some && rows_to_entries(rs.skip(1)) is Some && parse_row(r)
            is Some {
            let e0 = parse_row(rs[0])->Some_0;
            let es1 = rows_to_entries(rs.skip(1))->Some_0;
            let e = parse_row(r)->Some_0;
            assert(rows_to_entries(w) == Some(seq![e0] + es1.push(e)));
            assert(rows_to_entries(rs) == Some(seq![e0] + es1));
            assert(seq![e0] + es1.push(e) =~= (seq![e0] + es1).push(e));
        }
    }
}


// ------------------------------------------------------------------
// Round trips for whole rows and whole stores
// ------------------------------------------------------------------

proof fn lemma_name_clean(m: Month)
    ensures
        is_clean(m.name_spec()),
{
    match m {
        Month::January => {
            assert(is_clean(Month::January.name_spec()));
        },
        Month::February => {
            assert(is_clean(Month::February.name_spec()));
        },
        Month::March => {
            assert(is_clean(Month::March.name_spec()));
        },
        Month::April => {
            assert(is_clean(Month::April.name_spec()));
        },
        Month::May => {
            assert(is_clean(Month::May.name_spec()));
        },
        Month::June => {
            assert(is_clean(Month::June.name_spec()));
        },
        Month::July => {
            assert(is_clean(Month::July.name_spec()));
        },
        Month::August => {
            assert(is_clean(Month::August.name_spec()));
        },
        Month::September => {
            assert(is_clean(Month::September.name_spec()));
        },
        Month::October => {
            assert(is_clean(Month::October.name_spec()));
        },
        Month::November => {
            assert(is_clean(Month::November.name_spec()));
        },
        Month::December => {
            assert(is_clean(Month::December.name_spec()));
        },
    }
}

proof fn lemma_dec_int_clean(n: int)
    ensures
        is_clean(dec_int(n)),
{
    let mag = if n < 0 { -n } else { n };
    crate::num::lemma_dec_nat_digits(mag);
    let d = crate::num::dec_nat(mag);
    assert(forall|i: int| 0 <= i < d.len() ==> #[trigger] d[i] != '\n' && d[i] != '\r') by {
        assert(forall|i: int| 0 <= i < d.len() ==> crate::num::is_digit(#[trigger] d[i]));
    }
    if n < 0 {
        let w = seq!['-'] + d;
        assert(forall|i: int| 1 <= i < w.len() ==> #[trigger] w[i] == d[i - 1]);
        assert(is_clean(w));
    }
}

/// Every field of an encodable entry's row fits on one line.
proof fn lemma_row_clean(e: EntryV)
    requires
        entry_clean(e),
    ensures
        forall|i: int| 0 <= i < row_of(e).len() ==> is_clean(#[trigger] row_of(e)[i]),
{
    lemma_name_clean(e.month);
    lemma_dec_int_clean(e.year);
    lemma_dec_int_clean(e.amount);
}

/// Encoding an entry as a row and parsing the row back yields the same
/// entry, field for field.
pub proof fn lemma_row_round_trip(e: EntryV)
    requires
        entry_in_range(e),
    ensures
        parse_row(row_of(e)) == Some(e),
{
    let fs = row_of(e);
    assert(fs.len() == 6);
    crate::month::lemma_month_from_name(e.month);
    crate::num::lemma_dec_int_round_trip(e.year);
    crate::num::lemma_dec_int_round_trip(e.amount);
    assert(parse_row(fs) == Some(EntryV {
        month: e.month,
        year: e.year,
        group: e.group,
        subgroup: e.subgroup,
        amount: e.amount,
        note: e.note,
    }));
}

proof fn lemma_header_clean()
    ensures
        forall|i: int| 0 <= i < header_row().len() ==> is_clean(#[trigger] header_row()[i]),
{
}

/// A freshly created store — the header line alone — reads back as no
/// entries.
pub proof fn lemma_fresh_store_reads_empty()
    ensures
        parse_entries_spec(header_text()) == Some(Seq::<EntryV>::empty()),
        header_text().len() > 0,
        header_text().last() == '\n',
{
    lemma_header_clean();
    lemma_parse_rows_single(header_row());
    assert(header_text().last() == '\n');
    assert(seq![header_row()].skip(1) =~= Seq::<Seq<Seq<char>>>::empty());
    assert(rows_to_entries(Seq::<Seq<Seq<char>>>::empty()) == Some(Seq::<EntryV>::empty()));
}

/// Appending an encodable entry to a well-formed store appends exactly
/// that entry to what reads back: the read yields the old entries with the
/// new one as last element.
pub proof fn lemma_store_append(c: Seq<char>, es: Seq<EntryV>, e: EntryV)
    requires
        parse_entries_spec(c) == Some(es),
        c.len() > 0,
        c.last() == '\n',
        entry_clean(e),
        entry_in_range(e),
    ensures
        parse_entries_spec(c + enc_line(row_of(e))) == Some(es.push(e)),
        (c + enc_line(row_of(e))).last() == '\n',
{
    let row = row_of(e);
    let line = enc_line(row);
    assert(parse_rows(c) is Some);
    let rows = parse_rows(c)->Some_0;
    assert(rows.len() >= 1);
    assert(rows_to_entries(rows.skip(1)) == Some(es));
    lemma_row_clean(e);
    lemma_parse_rows_append(c, rows, row);
    assert(rows.push(row).skip(1) =~= rows.skip(1).push(row));
    lemma_rows_to_entries_push(rows.skip(1), row);
    lemma_row_round_trip(e);
    assert((c + line).len() > 0);
    assert(rows.push(row).len() > 0);
    assert((c + line).last() == '\n');
}

/// Creating a store and appending one encodable entry yields a store that
/// reads back as exactly that entry.
pub proof fn lemma_store_create(e: EntryV)
    requires
        entry_clean(e),
        entry_in_range(e),
    ensures
        parse_entries_spec(header_text() + enc_line(row_of(e))) == Some(seq![e]),
        (header_text() + enc_line(row_of(e))).last() == '\n',
{
    lemma_fresh_store_reads_empty();
    lemma_store_append(header_text(), Seq::empty(), e);
    assert(Seq::<EntryV>::empty().push(e) =~= seq![e]);
}

} // verus!
