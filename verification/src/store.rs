//! The record store's computational half: encoding entries as rows for an
//! append, and parsing a store's whole text back into entries. The caller
//! owns the file itself and only moves text in and out.

use vstd::prelude::*;
use crate::LedgerError;
use crate::entry::{Entry, EntryV};
use crate::codec::{
    is_clean, needs_quote, esc, enc_field, enc_fields, enc_line, parse_quoted, split_comma,
    parse_field, parse_fields, take_line, parse_rows, row_of, entry_clean, parse_row,
    rows_to_entries, parse_entries_spec, header_row, header_text, lemma_parse_field_len,
    lemma_take_line_len,
};
use crate::text::{copy_chars, push_all, text};

verus! {

/// Whether every character of the field can be written on one line.
pub fn is_clean_exec(f: &Vec<char>) -> (r: bool)
    ensures
        r <==> is_clean(f@),
{
    let mut i: usize = 0;
    while i < f.len()
        invariant
            i <= f@.len(),
            forall|j: int| 0 <= j < i ==> #[trigger] f@[j] != '\n' && f@[j] != '\r',
        decreases f@.len() - i,
    {
        if f[i] == '\n' || f[i] == '\r' {
            return false;
        }
        i = i + 1;
    }
    true
}

fn needs_quote_exec(f: &Vec<char>) -> (r: bool)
    ensures
        r <==> needs_quote(f@),
{
    let mut i: usize = 0;
    while i < f.len()
        invariant
            i <= f@.len(),
            forall|j: int| 0 <= j < i ==> !(#[trigger] f@[j] == ',' || f@[j] == '"'),
        decreases f@.len() - i,
    {
        if f[i] == ',' || f[i] == '"' {
            return true;
        }
        i = i + 1;
    }
    false
}

/// One field, encoded: quoted with doubled quotes when it holds the
/// delimiter or a quote, written as-is otherwise.
fn encode_field(f: &Vec<char>) -> (r: Vec<char>)
    ensures
        r@ == enc_field(f@),
{
    if !needs_quote_exec(f) {
        copy_chars(f)
    } else {
        let mut out: Vec<char> = Vec::new();
        out.push('"');
        let mut i: usize = 0;
        while i < f.len()
            invariant
                i <= f@.len(),
                out@ == seq!['"'] + esc(f@.take(i as int)),
            decreases f@.len() - i,
        {
            let c = f[i];
            if c == '"' {
                out.push('"');
                out.push('"');
            } else {
                out.push(c);
            }
            i = i + 1;
            proof {
                assert(f@.take(i as int).drop_last() =~= f@.take(i - 1));
                assert(f@.take(i as int).last() == f@[i - 1]);
                if f@[i - 1] == '"' {
                    assert(out@ =~= seq!['"'] + (esc(f@.take(i - 1)) + seq!['"', '"']));
                } else {
                    assert(out@ =~= seq!['"'] + (esc(f@.take(i - 1)) + seq![f@[i - 1]]));
                }
            }
        }
        out.push('"');
        proof {
            assert(f@.take(f@.len() as int) =~= f@);
            assert(out@ =~= seq!['"'] + esc(f@) + seq!['"']);
        }
        out
    }
}

/// The views of a row's fields.
pub open spec fn field_views(fs: Seq<Vec<char>>) -> Seq<Seq<char>> {
    fs.map_values(|f: Vec<char>| f@)
}

fn encode_fields_from(fields: &Vec<Vec<char>>, from: usize) -> (r: Vec<char>)
    requires
        from <= fields@.len(),
    ensures
        r@ == enc_fields(field_views(fields@).skip(from as int)),
    decreases fields@.len() - from,
{
    let ghost fs = field_views(fields@).skip(from as int);
    if from >= fields.len() {
        proof {
            assert(fs =~= Seq::<Seq<char>>::empty());
        }
        Vec::new()
    } else if from == fields.len() - 1 {
        let r = encode_field(&fields[from]);
        proof {
            assert(fs.len() == 1);
            assert(fs[0] == fields@[from as int]@);
        }
        r
    } else {
        let mut r = encode_field(&fields[from]);
        r.push(',');
        let rest = encode_fields_from(fields, from + 1);
        push_all(&mut r, &rest);
        proof {
            assert(fs.len() >= 2);
            assert(fs[0] == fields@[from as int]@);
            assert(fs.skip(1) =~= field_views(fields@).skip(from + 1));
            assert(r@ =~= enc_field(fs[0]) + seq![','] + enc_fields(fs.skip(1)));
        }
        r
    }
}

/// One whole encoded row: the fields joined by the delimiter, then a line
/// break.
fn encode_line(fields: &Vec<Vec<char>>) -> (r: Vec<char>)
    ensures
        r@ == enc_line(field_views(fields@)),
{
    let mut r = encode_fields_from(fields, 0);
    r.push('\n');
    proof {
        assert(field_views(fields@).skip(0) =~= field_views(fields@));
        assert(r@ =~= enc_fields(field_views(fields@)) + seq!['\n']);
    }
    r
}

/// The text that an append writes: the entry's encoded row, preceded by
/// the header line when the store file did not yet exist. Fails with a
/// serialization error when a text field holds a line break and so cannot
/// be written on one line.
pub fn append_text(file_exists: bool, e: &Entry) -> (r: Result<Vec<char>, LedgerError>)
    ensures
        entry_clean(e@) ==> (r matches Ok(t) && t@ == (if file_exists {
            Seq::<char>::empty()
        } else {
            header_text()
        }) + enc_line(row_of(e@))),
        !entry_clean(e@) ==> (r matches Err(le) && le == LedgerError::Serialization),
{
    if !(is_clean_exec(&e.group) && is_clean_exec(&e.subgroup) && is_clean_exec(&e.note)) {
        return Err(LedgerError::Serialization);
    }
    let mut fields: Vec<Vec<char>> = Vec::new();
    fields.push(e.month.name());
    fields.push(crate::num::format_int(e.year as i128));
    fields.push(copy_chars(&e.group));
    fields.push(copy_chars(&e.subgroup));
    fields.push(crate::num::format_int(e.amount as i128));
    fields.push(copy_chars(&e.note));
    let row = encode_line(&fields);
    proof {
        assert(field_views(fields@) =~= row_of(e@));
    }
    if file_exists {
        proof {
            assert(Seq::<char>::empty() + enc_line(row_of(e@)) =~= enc_line(row_of(e@)));
        }
        Ok(row)
    } else {
        let mut out = header_line();
        push_all(&mut out, &row);
        Ok(out)
    }
}

/// The header line that begins a fresh store.
pub fn header_line() -> (r: Vec<char>)
    ensures
        r@ == header_text(),
{
    let mut fields: Vec<Vec<char>> = Vec::new();
    fields.push(text("month"));
    fields.push(text("year"));
    fields.push(text("group"));
    fields.push(text("subgroup"));
    fields.push(text("amount"));
    fields.push(text("note"));
    let r = encode_line(&fields);
    proof {
        reveal_strlit("month");
        reveal_strlit("year");
        reveal_strlit("group");
        reveal_strlit("subgroup");
        reveal_strlit("amount");
        reveal_strlit("note");
        assert(field_views(fields@)[0] =~= header_row()[0]);
        assert(field_views(fields@)[1] =~= header_row()[1]);
        assert(field_views(fields@)[2] =~= header_row()[2]);
        assert(field_views(fields@)[3] =~= header_row()[3]);
        assert(field_views(fields@)[4] =~= header_row()[4]);
        assert(field_views(fields@)[5] =~= header_row()[5]);
        assert(field_views(fields@) =~= header_row());
    }
    r
}

// ------------------------------------------------------------------
// Parsing a store's text
// ------------------------------------------------------------------

fn parse_quoted_at(v: &Vec<char>, from: usize) -> (r: Option<(Vec<char>, usize)>)
    requires
        from <= v@.len(),
    ensures
        parse_quoted(v@.skip(from as int)) is None ==> r is None,
        parse_quoted(v@.skip(from as int)) matches Some(p) ==> (r matches Some(q) && q.0@ == p.0
            && from <= q.1 <= v@.len() && v@.skip(q.1 as int) == p.1),
    decreases v@.len() - from,
{
    let ghost s = v@.skip(from as int);
    if from >= v.len() {
        return None;
    }
    proof {
        assert(s[0] == v@[from as int]);
    }
    let c = v[from];
    if c == '"' {
        if from + 1 < v.len() && v[from + 1] == '"' {
            proof {
                assert(s.len() >= 2 && s[1] == '"');
                assert(s.skip(2) =~= v@.skip(from + 2));
            }
            match parse_quoted_at(v, from + 2) {
                None => None,
                Some((mut val, p)) => {
                    val.insert(0, '"');
                    proof {
                        assert(val@ =~= seq!['"'] + parse_quoted(v@.skip(from + 2))->Some_0.0);
                    }
                    Some((val, p))
                },
            }
        } else {
            proof {
                assert(!(s.len() >= 2 && s[1] == '"')) by {
                    if s.len() >= 2 {
                        assert(s[1] == v@[from + 1]);
                    }
                }
                assert(s.skip(1) =~= v@.skip(from + 1));
            }
            Some((Vec::new(), from + 1))
        }
    } else {
        proof {
            assert(s.skip(1) =~= v@.skip(from + 1));
        }
        match parse_quoted_at(v, from + 1) {
            None => None,
            Some((mut val, p)) => {
                val.insert(0, c);
                proof {
                    assert(val@ =~= seq![s[0]] + parse_quoted(v@.skip(from + 1))->Some_0.0);
                }
                Some((val, p))
            },
        }
    }
}

fn split_comma_at(v: &Vec<char>, from: usize) -> (r: (Vec<char>, usize))
    requires
        from <= v@.len(),
    ensures
        r.0@ == split_comma(v@.skip(from as int)).0,
        from <= r.1 <= v@.len(),
        v@.skip(r.1 as int) == split_comma(v@.skip(from as int)).1,
    decreases v@.len() - from,
{
    let ghost s = v@.skip(from as int);
    if from >= v.len() {
        proof {
            assert(split_comma(s).0 =~= Seq::<char>::empty());
            assert(split_comma(s).1 =~= v@.skip(from as int));
        }
        (Vec::new(), from)
    } else {
        proof {
            assert(s[0] == v@[from as int]);
        }
        let c = v[from];
        if c == ',' {
            (Vec::new(), from)
        } else {
            proof {
                assert(s.skip(1) =~= v@.skip(from + 1));
            }
            let (mut val, p) = split_comma_at(v, from + 1);
            val.insert(0, c);
            proof {
                assert(val@ =~= seq![s[0]] + split_comma(v@.skip(from + 1)).0);
            }
            (val, p)
        }
    }
}

fn parse_field_at(v: &Vec<char>, from: usize) -> (r: Option<(Vec<char>, usize)>)
    requires
        from <= v@.len(),
    ensures
        parse_field(v@.skip(from as int)) is None ==> r is None,
        parse_field(v@.skip(from as int)) matches Some(p) ==> (r matches Some(q) && q.0@ == p.0
            && from <= q.1 <= v@.len() && v@.skip(q.1 as int) == p.1),
{
    let ghost s = v@.skip(from as int);
    if from < v.len() && v[from] == '"' {
        proof {
            assert(s[0] == v@[from as int]);
            assert(s.skip(1) =~= v@.skip(from + 1));
        }
        match parse_quoted_at(v, from + 1) {
            None => None,
            Some((val, p)) => {
                if p == v.len() {
                    Some((val, p))
                } else if v[p] == ',' {
                    proof {
                        assert(parse_quoted(s.skip(1))->Some_0.1[0] == v@[p as int]);
                    }
                    Some((val, p))
                } else {
                    proof {
                        assert(parse_quoted(s.skip(1))->Some_0.1[0] == v@[p as int]);
                    }
                    None
                }
            },
        }
    } else {
        proof {
            if s.len() > 0 {
                assert(s[0] == v@[from as int]);
            }
        }
        let (val, p) = split_comma_at(v, from);
        Some((val, p))
    }
}

fn parse_fields_at(v: &Vec<char>, from: usize) -> (r: Option<Vec<Vec<char>>>)
    requires
        from <= v@.len(),
    ensures
        parse_fields(v@.skip(from as int)) is None ==> r is None,
        parse_fields(v@.skip(from as int)) matches Some(fs) ==> (r matches Some(out) && field_views(
            out@,
        ) == fs),
    decreases v@.len() - from,
{
    let ghost s = v@.skip(from as int);
    proof {
        lemma_parse_field_len(s);
    }
    match parse_field_at(v, from) {
        None => None,
        Some((val, p)) => {
            if p == v.len() {
                proof {
                    assert(parse_field(s)->Some_0.1.len() == 0);
                }
                let ghost pf = parse_field(s)->Some_0;
                let mut out: Vec<Vec<char>> = Vec::new();
                out.push(val);
                proof {
                    assert(field_views(out@) =~= seq![pf.0]);
                }
                Some(out)
            } else {
                proof {
                    assert(parse_field(s)->Some_0.1.len() > 0);
                    assert(parse_field(s)->Some_0.1 == v@.skip(p as int));
                    assert(parse_field(s)->Some_0.1.skip(1) =~= v@.skip(p + 1));
                }
                match parse_fields_at(v, p + 1) {
                    None => None,
                    Some(mut out) => {
                        out.insert(0, val);
                        proof {
                            let pf = parse_field(s)->Some_0;
                            let rest = parse_fields(pf.1.skip(1))->Some_0;
                            assert(field_views(out@) =~= seq![pf.0] + rest);
                        }
                        Some(out)
                    },
                }
            }
        },
    }
}

fn take_line_at(v: &Vec<char>, from: usize) -> (r: (Vec<char>, usize))
    requires
        from <= v@.len(),
    ensures
        r.0@ == take_line(v@.skip(from as int)).0,
        from <= r.1 <= v@.len(),
        v@.skip(r.1 as int) == take_line(v@.skip(from as int)).1,
        from < v@.len() ==> r.1 > from,
    decreases v@.len() - from,
{
    let ghost s = v@.skip(from as int);
    if from >= v.len() {
        proof {
            assert(take_line(s).0 =~= Seq::<char>::empty());
            assert(take_line(s).1 =~= v@.skip(from as int));
        }
        (Vec::new(), from)
    } else {
        proof {
            assert(s[0] == v@[from as int]);
        }
        let c = v[from];
        if c == '\n' {
            proof {
                assert(s.skip(1) =~= v@.skip(from + 1));
            }
            (Vec::new(), from + 1)
        } else {
            proof {
                assert(s.skip(1) =~= v@.skip(from + 1));
            }
            let (mut line, p) = take_line_at(v, from + 1);
            line.insert(0, c);
            proof {
                assert(line@ =~= seq![s[0]] + take_line(v@.skip(from + 1)).0);
            }
            (line, p)
        }
    }
}

/// Parses the fields of one data row as an entry; `None` exactly when
/// they do not form one.
pub fn parse_row_exec(fields: Vec<Vec<char>>) -> (r: Option<Entry>)
    ensures
        parse_row(field_views(fields@)) is None ==> r is None,
        parse_row(field_views(fields@)) matches Some(ev) ==> (r matches Some(en) && en@ == ev),
{
    let ghost fs = field_views(fields@);
    if fields.len() != 6 {
        return None;
    }
    let m = match crate::month::parse_month(&fields[0]) {
        Some(m) => m,
        None => {
            return None;
        },
    };
    let y = match crate::num::parse_i32(&fields[1]) {
        Some(y) => y,
        None => {
            return None;
        },
    };
    let a = match crate::num::parse_i64(&fields[4]) {
        Some(a) => a,
        None => {
            return None;
        },
    };
    let mut fields = fields;
    let note = fields.pop().unwrap();
    let _amount_text = fields.pop().unwrap();
    let subgroup = fields.pop().unwrap();
    let group = fields.pop().unwrap();
    let en = Entry { month: m, year: y, group, subgroup, amount: a, note };
    Some(en)
}


/// What parsing a headerless run of data rows yields.
pub open spec fn parse_tail(s: Seq<char>) -> Option<Seq<EntryV>> {
    match parse_rows(s) {
        None => None,
        Some(rows) => rows_to_entries(rows),
    }
}

/// The position, within a headerless run of data rows, of the first row
/// that does not parse as an entry: rows before it parse, it does not.
pub open spec fn bad_tail_row(s: Seq<char>) -> int
    recommends
        parse_tail(s) is None,
    decreases s.len(),
    via bad_tail_row_dec
{
    if s.len() == 0 {
        0
    } else {
        let p = take_line(s);
        match parse_fields(p.0) {
            None => 0,
            Some(fs) => if parse_row(fs) is None {
                0
            } else {
                1 + bad_tail_row(p.1)
            },
        }
    }
}

#[via_fn]
proof fn bad_tail_row_dec(s: Seq<char>) {
    lemma_take_line_len(s);
}

/// The position in the whole store of the first malformed row, the header
/// being row zero.
pub open spec fn store_bad_row(c: Seq<char>) -> int
    recommends
        c.len() > 0,
        parse_entries_spec(c) is None,
{
    if parse_fields(take_line(c).0) is None {
        0
    } else {
        1 + bad_tail_row(take_line(c).1)
    }
}

fn read_rows_at(v: &Vec<char>, from: usize, row: usize) -> (r: Result<Vec<Entry>, LedgerError>)
    requires
        from <= v@.len(),
        row <= from,
    ensures
        parse_tail(v@.skip(from as int)) is None ==> (r matches Err(le) && (le matches
            LedgerError::Parse(n) && n as int == row as int + bad_tail_row(
            v@.skip(from as int),
        ))),
        parse_tail(v@.skip(from as int)) matches Some(es) ==> (r matches Ok(out)
            && crate::entry::views_of(out@) == es),
    decreases v@.len() - from,
{
    let ghost s = v@.skip(from as int);
    if from >= v.len() {
        proof {
            assert(s =~= Seq::<char>::empty());
            assert(parse_rows(s) == Some(Seq::<Seq<Seq<char>>>::empty()));
            assert(rows_to_entries(Seq::<Seq<Seq<char>>>::empty()) == Some(
                Seq::<EntryV>::empty()));
            assert(crate::entry::views_of(Seq::<Entry>::empty()) =~= Seq::<EntryV>::empty());
        }
        return Ok(Vec::new());
    }
    proof {
        lemma_take_line_len(s);
    }
    let (line, p) = take_line_at(v, from);
    let ghost rest = take_line(s).1;
    proof {
        assert(line@.skip(0) =~= line@);
    }
    let fields = match parse_fields_at(&line, 0) {
        None => {
            proof {
                assert(bad_tail_row(s) == 0);
            }
            return Err(LedgerError::Parse(row));
        },
        Some(fs) => fs,
    };
    let ghost fs0 = parse_fields(take_line(s).0)->Some_0;
    let en = match parse_row_exec(fields) {
        None => {
            proof {
                assert(bad_tail_row(s) == 0);
                if parse_rows(s) is Some {
                    let rows = parse_rows(s)->Some_0;
                    assert(rows == seq![fs0] + parse_rows(rest)->Some_0);
                    assert(rows[0] == fs0);
                }
            }
            return Err(LedgerError::Parse(row));
        },
        Some(en) => en,
    };
    match read_rows_at(v, p, row + 1) {
        Err(le) => {
            proof {
                assert(bad_tail_row(s) == 1 + bad_tail_row(rest));
                if parse_rows(s) is Some {
                    let rows = parse_rows(s)->Some_0;
                    let rows1 = parse_rows(rest)->Some_0;
                    assert(rows == seq![fs0] + rows1);
                    assert(rows[0] == fs0);
                    assert(rows.skip(1) =~= rows1);
                }
            }
            Err(le)
        },
        Ok(mut out) => {
            out.insert(0, en);
            proof {
                assert(parse_rows(s) is Some);
                let rows = parse_rows(s)->Some_0;
                let rows1 = parse_rows(rest)->Some_0;
                assert(rows == seq![fs0] + rows1);
                assert(rows[0] == fs0);
                assert(rows.skip(1) =~= rows1);
                assert(parse_row(rows[0]) == Some(en@));
                if parse_tail(rest) is Some {
                    let es1 = parse_tail(rest)->Some_0;
                    assert(crate::entry::views_of(out@) =~= seq![en@] + es1);
                }
            }
            Ok(out)
        },
    }
}

/// Reads a whole store: nothing for an empty store; otherwise every row
/// after the header, parsed as entries, in append order. Fails with a
/// parse error naming the first malformed row.
pub fn read_entries(content: &Vec<char>) -> (r: Result<Vec<Entry>, LedgerError>)
    ensures
        parse_entries_spec(content@) matches Some(es) ==> (r matches Ok(out)
            && crate::entry::views_of(out@) == es),
        parse_entries_spec(content@) is None ==> (r matches Err(le) && (le matches
            LedgerError::Parse(n) && n as int == store_bad_row(content@))),
{
    if content.len() == 0 {
        proof {
            assert(crate::entry::views_of(Seq::<Entry>::empty()) =~= Seq::<EntryV>::empty());
        }
        return Ok(Vec::new());
    }
    let ghost c = content@;
    proof {
        assert(c.skip(0) =~= c);
        lemma_take_line_len(c);
    }
    let (hline, p) = take_line_at(content, 0);
    let ghost rest = take_line(c).1;
    proof {
        assert(hline@.skip(0) =~= hline@);
    }
    match parse_fields_at(&hline, 0) {
        None => {
            proof {
                assert(store_bad_row(c) == 0);
            }
            return Err(LedgerError::Parse(0));
        },
        Some(_) => {},
    }
    let ghost hfs = parse_fields(take_line(c).0)->Some_0;
    let r = read_rows_at(content, p, 1);
    proof {
        if parse_rows(rest) is Some {
            let rows1 = parse_rows(rest)->Some_0;
            let rows = parse_rows(c)->Some_0;
            assert(rows == seq![hfs] + rows1);
            assert(rows.len() > 0);
            assert(rows.skip(1) =~= rows1);
        }
    }
    r
}

} // verus!
