//! The report renderer: one heading line per calendar month, one
//! left-justified line per group, and one, further indented, per subgroup.

use vstd::prelude::*;
use crate::aggregate::{GroupV, MonthSummary, MonthV, SubV, month_views};
use crate::num::dec_int;
use crate::text::push_all;

verus! {

/// A run of spaces.
pub open spec fn spaces(n: int) -> Seq<char>
    decreases n,
{
    if n <= 0 {
        Seq::empty()
    } else {
        spaces(n - 1) + seq![' ']
    }
}

/// Text left-justified to the report's column width.
pub open spec fn pad20(s: Seq<char>) -> Seq<char> {
    s + spaces(20 - s.len())
}

pub open spec fn render_sub(sv: SubV) -> Seq<char> {
    seq!['\t', '\t'] + pad20(sv.name) + pad20(dec_int(sv.total)) + seq!['\n']
}

pub open spec fn render_subs(ss: Seq<SubV>) -> Seq<char>
    decreases ss.len(),
{
    if ss.len() == 0 {
        Seq::empty()
    } else {
        render_sub(ss[0]) + render_subs(ss.skip(1))
    }
}

pub open spec fn render_group(gv: GroupV) -> Seq<char> {
    seq!['\t'] + pad20(gv.name) + pad20(Seq::empty()) + pad20(dec_int(gv.total)) + seq!['\n']
        + render_subs(gv.subs)
}

pub open spec fn render_groups(gs: Seq<GroupV>) -> Seq<char>
    decreases gs.len(),
{
    if gs.len() == 0 {
        Seq::empty()
    } else {
        render_group(gs[0]) + render_groups(gs.skip(1))
    }
}

pub open spec fn render_month(mv: MonthV) -> Seq<char> {
    mv.month.name_spec() + seq![' '] + dec_int(mv.year) + seq!['\n'] + render_groups(mv.groups)
}

/// The whole report's text.
pub open spec fn render_report(ms: Seq<MonthV>) -> Seq<char>
    decreases ms.len(),
{
    if ms.len() == 0 {
        Seq::empty()
    } else {
        render_month(ms[0]) + render_report(ms.skip(1))
    }
}

/// Whether every total of the report can be formatted: the decimal
/// formatter cannot write the one value whose magnitude overflows its own
/// type, which no sum of 64-bit amounts reaches.
pub open spec fn totals_in_range(ms: Seq<MonthV>) -> bool {
    forall|i: int, j: int|
        0 <= i < ms.len() && 0 <= j < ms[i].groups.len() ==> ((#[trigger] ms[i].groups[j]).total
            > i128::MIN && forall|l: int|
            0 <= l < ms[i].groups[j].subs.len() ==> (#[trigger] ms[i].groups[j].subs[l]).total
                > i128::MIN)
}

fn push_pad20(out: &mut Vec<char>, s: &Vec<char>)
    ensures
        final(out)@ == old(out)@ + pad20(s@),
{
    push_all(out, s);
    let n = s.len();
    if n >= 20 {
        proof {
            assert(pad20(s@) =~= s@ + spaces(20 - s@.len()));
            assert(old(out)@ + pad20(s@) =~= old(out)@ + s@);
        }
        return ;
    }
    let mut j: usize = n;
    while j < 20
        invariant
            n <= j <= 20,
            n == s@.len(),
            out@ == old(out)@ + s@ + spaces(j - n),
        decreases 20 - j,
    {
        out.push(' ');
        j = j + 1;
        proof {
            assert(old(out)@ + s@ + spaces(j - n) =~= (old(out)@ + s@ + spaces(j - 1 - n)).push(
                ' '));
        }
    }
    proof {
        assert(old(out)@ + s@ + spaces(20 - n) =~= old(out)@ + (s@ + spaces(20 - s@.len())));
    }
}

fn push_sub_lines(out: &mut Vec<char>, subs: &Vec<crate::aggregate::SubSummary>, from: usize)
    requires
        from <= subs@.len(),
        forall|l: int| 0 <= l < subs@.len() ==> (#[trigger] subs@[l]).total > i128::MIN,
    ensures
        final(out)@ == old(out)@ + render_subs(
            subs@.map_values(|x: crate::aggregate::SubSummary| x@).skip(from as int),
        ),
    decreases subs@.len() - from,
{
    let ghost ss = subs@.map_values(|x: crate::aggregate::SubSummary| x@);
    if from >= subs.len() {
        proof {
            assert(ss.skip(from as int) =~= Seq::<SubV>::empty());
            assert(old(out)@ + Seq::<char>::empty() =~= old(out)@);
        }
        return ;
    }
    out.push('\t');
    out.push('\t');
    push_pad20(out, &subs[from].name);
    let t = crate::num::format_int(subs[from].total);
    push_pad20(out, &t);
    out.push('\n');
    let ghost mid = out@;
    push_sub_lines(out, subs, from + 1);
    proof {
        assert(ss.skip(from as int)[0] == ss[from as int]);
        assert(ss.skip(from as int).skip(1) =~= ss.skip(from + 1));
        assert(mid =~= old(out)@ + render_sub(ss[from as int]));
        assert(final(out)@ =~= old(out)@ + (render_sub(ss[from as int]) + render_subs(ss.skip(
            from + 1))));
    }
}

fn push_group_lines(out: &mut Vec<char>, groups: &Vec<crate::aggregate::GroupSummary>, from: usize)
    requires
        from <= groups@.len(),
        forall|j: int| 0 <= j < groups@.len() ==> ((#[trigger] groups@[j]).total > i128::MIN
            && forall|l: int| 0 <= l < groups@[j].subs@.len() ==> (#[trigger] groups@[
            j].subs@[l]).total > i128::MIN),
    ensures
        final(out)@ == old(out)@ + render_groups(
            groups@.map_values(|x: crate::aggregate::GroupSummary| x@).skip(from as int),
        ),
    decreases groups@.len() - from,
{
    let ghost gs = groups@.map_values(|x: crate::aggregate::GroupSummary| x@);
    if from >= groups.len() {
        proof {
            assert(gs.skip(from as int) =~= Seq::<GroupV>::empty());
            assert(old(out)@ + Seq::<char>::empty() =~= old(out)@);
        }
        return ;
    }
    out.push('\t');
    push_pad20(out, &groups[from].name);
    let empty_col: Vec<char> = Vec::new();
    push_pad20(out, &empty_col);
    let t = crate::num::format_int(groups[from].total);
    push_pad20(out, &t);
    out.push('\n');
    push_sub_lines(out, &groups[from].subs, 0);
    let ghost mid = out@;
    push_group_lines(out, groups, from + 1);
    proof {
        let gv = gs[from as int];
        assert(gs.skip(from as int)[0] == gv);
        assert(gs.skip(from as int).skip(1) =~= gs.skip(from + 1));
        assert(gv.subs =~= groups@[from as int].subs@.map_values(
            |x: crate::aggregate::SubSummary| x@).skip(0));
        assert(mid =~= old(out)@ + render_group(gv));
        assert(final(out)@ =~= old(out)@ + (render_group(gv) + render_groups(gs.skip(from + 1))));
    }
}

fn push_month_blocks(out: &mut Vec<char>, months: &Vec<MonthSummary>, from: usize)
    requires
        from <= months@.len(),
        totals_in_range(month_views(months@)),
    ensures
        final(out)@ == old(out)@ + render_report(month_views(months@).skip(from as int)),
    decreases months@.len() - from,
{
    let ghost ms = month_views(months@);
    if from >= months.len() {
        proof {
            assert(ms.skip(from as int) =~= Seq::<MonthV>::empty());
            assert(old(out)@ + Seq::<char>::empty() =~= old(out)@);
        }
        return ;
    }
    let name = months[from].month.name();
    push_all(out, &name);
    out.push(' ');
    let y = crate::num::format_int(months[from].year as i128);
    push_all(out, &y);
    out.push('\n');
    proof {
        assert forall|j: int| 0 <= j < months@[from as int].groups@.len() implies ((
        #[trigger] months@[from as int].groups@[j]).total > i128::MIN && forall|l: int|
            0 <= l < months@[from as int].groups@[j].subs@.len() ==> (#[trigger] months@[
            from as int].groups@[j].subs@[l]).total > i128::MIN) by {
            assert(ms[from as int] == months@[from as int]@);
            assert(ms[from as int].groups[j] == months@[from as int].groups@[j]@);
            assert(ms[from as int].groups[j].total > i128::MIN);
            assert forall|l: int| 0 <= l < months@[from as int].groups@[j].subs@.len() implies (
            #[trigger] months@[from as int].groups@[j].subs@[l]).total > i128::MIN by {
                assert(ms[from as int].groups[j].subs[l] == months@[from as int].groups@[
                    j].subs@[l]@);
                assert(ms[from as int].groups[j].subs[l].total > i128::MIN);
            }
        }
    }
    push_group_lines(out, &months[from].groups, 0);
    let ghost mid = out@;
    push_month_blocks(out, months, from + 1);
    proof {
        let mv = ms[from as int];
        assert(ms.skip(from as int)[0] == mv);
        assert(ms.skip(from as int).skip(1) =~= ms.skip(from + 1));
        assert(mv.groups =~= months@[from as int].groups@.map_values(
            |x: crate::aggregate::GroupSummary| x@).skip(0));
        assert(mid =~= old(out)@ + render_month(mv));
        assert(final(out)@ =~= old(out)@ + (render_month(mv) + render_report(ms.skip(from + 1))));
    }
}

/// The report's text: for each month in order, its heading, then its
/// group and subgroup lines.
pub fn render(months: &Vec<MonthSummary>) -> (out: Vec<char>)
    requires
        totals_in_range(month_views(months@)),
    ensures
        out@ == render_report(month_views(months@)),
{
    let mut out: Vec<char> = Vec::new();
    push_month_blocks(&mut out, months, 0);
    proof {
        assert(month_views(months@).skip(0) =~= month_views(months@));
        assert(Seq::<char>::empty() + render_report(month_views(months@)) =~= render_report(
            month_views(months@)));
    }
    out
}

} // verus!
