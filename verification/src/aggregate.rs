//! The aggregator: given entries, group them by calendar month in
//! chronological order, within a month by category group in first-seen
//! order, and within a group by subgroup in first-seen order, with the sum
//! of amounts at every level. `report_of` is the mathematical definition;
//! `summarize` computes exactly it.

use vstd::prelude::*;
use vstd::arithmetic::div_mod::lemma_fundamental_div_mod_converse;
use crate::entry::{Entry, EntryV, views_of};
use crate::month::Month;

verus! {

/// One subgroup's line of a summary: its name and the sum of amounts of
/// its entries.
pub struct SubSummary {
    pub name: Vec<char>,
    pub total: i128,
}

pub ghost struct SubV {
    pub name: Seq<char>,
    pub total: int,
}

impl View for SubSummary {
    type V = SubV;

    open spec fn view(&self) -> SubV {
        SubV { name: self.name@, total: self.total as int }
    }
}

/// One group's part of a summary: its name, the sum of amounts of its
/// entries, and its subgroups in first-seen order.
pub struct GroupSummary {
    pub name: Vec<char>,
    pub total: i128,
    pub subs: Vec<SubSummary>,
}

pub ghost struct GroupV {
    pub name: Seq<char>,
    pub total: int,
    pub subs: Seq<SubV>,
}

impl View for GroupSummary {
    type V = GroupV;

    open spec fn view(&self) -> GroupV {
        GroupV {
            name: self.name@,
            total: self.total as int,
            subs: self.subs@.map_values(|s: SubSummary| s@),
        }
    }
}

/// One calendar month's part of a summary: the month and year, and its
/// groups in first-seen order.
pub struct MonthSummary {
    pub year: i32,
    pub month: Month,
    pub groups: Vec<GroupSummary>,
}

pub ghost struct MonthV {
    pub year: int,
    pub month: Month,
    pub groups: Seq<GroupV>,
}

impl View for MonthSummary {
    type V = MonthV;

    open spec fn view(&self) -> MonthV {
        MonthV {
            year: self.year as int,
            month: self.month,
            groups: self.groups@.map_values(|g: GroupSummary| g@),
        }
    }
}

pub open spec fn month_views(ms: Seq<MonthSummary>) -> Seq<MonthV> {
    ms.map_values(|m: MonthSummary| m@)
}

/// The sum of the amounts of a sequence of entries.
pub open spec fn sum_amounts(s: Seq<EntryV>) -> int
    decreases s.len(),
{
    if s.len() == 0 {
        0
    } else {
        sum_amounts(s.drop_last()) + s.last().amount
    }
}

pub open spec fn sum_subs(ss: Seq<SubV>) -> int
    decreases ss.len(),
{
    if ss.len() == 0 {
        0
    } else {
        sum_subs(ss.drop_last()) + ss.last().total
    }
}

pub open spec fn sum_groups(gs: Seq<GroupV>) -> int
    decreases gs.len(),
{
    if gs.len() == 0 {
        0
    } else {
        sum_groups(gs.drop_last()) + gs.last().total
    }
}

/// The month with the given calendar number; meaningful for 1 through 12.
pub open spec fn month_of_num(n: int) -> Month {
    if n == 1 {
        Month::January
    } else if n == 2 {
        Month::February
    } else if n == 3 {
        Month::March
    } else if n == 4 {
        Month::April
    } else if n == 5 {
        Month::May
    } else if n == 6 {
        Month::June
    } else if n == 7 {
        Month::July
    } else if n == 8 {
        Month::August
    } else if n == 9 {
        Month::September
    } else if n == 10 {
        Month::October
    } else if n == 11 {
        Month::November
    } else {
        Month::December
    }
}

/// The smallest chronological key among the entries.
pub open spec fn min_key(s: Seq<EntryV>) -> int
    recommends
        s.len() > 0,
    decreases s.len(),
{
    if s.len() <= 1 {
        s[0].key()
    } else {
        let m = min_key(s.drop_last());
        if s.last().key() < m {
            s.last().key()
        } else {
            m
        }
    }
}

pub proof fn lemma_min_key(s: Seq<EntryV>) -> (w: int)
    requires
        s.len() > 0,
    ensures
        0 <= w < s.len() && s[w].key() == min_key(s),
        forall|i: int| 0 <= i < s.len() ==> (#[trigger] s[i].key()) >= min_key(s),
    decreases s.len(),
{
    if s.len() == 1 {
        assert(s[0].key() == min_key(s));
        0
    } else {
        let wi = lemma_min_key(s.drop_last());
        let m = min_key(s.drop_last());
        assert(forall|i: int| 0 <= i < s.len() - 1 ==> s[i] == s.drop_last()[i]);
        if s.last().key() < m {
            assert(s[s.len() - 1].key() == min_key(s));
            s.len() - 1
        } else {
            assert(s[wi].key() == min_key(s));
            wi
        }
    }
}

/// If any element fails the predicate, filtering makes the sequence
/// strictly shorter.
pub proof fn lemma_filter_lt(s: Seq<EntryV>, p: spec_fn(EntryV) -> bool, i: int)
    requires
        0 <= i < s.len(),
        !p(s[i]),
    ensures
        s.filter(p).len() < s.len(),
    decreases s.len(),
{
    reveal(Seq::filter);
    broadcast use vstd::seq_lib::group_filter_ensures;

    if i == s.len() - 1 {
        assert(s.filter(p) == s.drop_last().filter(p));
    } else {
        lemma_filter_lt(s.drop_last(), p, i);
    }
}

/// Filters by pointwise-equal predicates are equal.
pub proof fn lemma_filter_ext(s: Seq<EntryV>, p: spec_fn(EntryV) -> bool, q: spec_fn(
    EntryV,
) -> bool)
    requires
        forall|e: EntryV| #[trigger] p(e) == q(e),
    ensures
        s.filter(p) == s.filter(q),
    decreases s.len(),
{
    reveal(Seq::filter);
    if s.len() > 0 {
        lemma_filter_ext(s.drop_last(), p, q);
    }
}

/// Filtering twice filters by the conjunction.
pub proof fn lemma_filter_filter(s: Seq<EntryV>, p: spec_fn(EntryV) -> bool, q: spec_fn(
    EntryV,
) -> bool)
    ensures
        s.filter(p).filter(q) == s.filter(|e: EntryV| p(e) && q(e)),
    decreases s.len(),
{
    reveal(Seq::filter);
    broadcast use vstd::seq_lib::group_filter_ensures;
    broadcast use Seq::lemma_filter_push;

    if s.len() > 0 {
        lemma_filter_filter(s.drop_last(), p, q);
        assert(s.drop_last().push(s.last()) =~= s);
        if p(s.last()) {
            assert(s.filter(p) == s.drop_last().filter(p).push(s.last()));
            if q(s.last()) {
                assert(s.filter(p).filter(q) == s.drop_last().filter(p).filter(q).push(s.last()));
            } else {
                assert(s.filter(p).filter(q) == s.drop_last().filter(p).filter(q));
            }
        } else {
            assert(s.filter(p) == s.drop_last().filter(p));
        }
    }
}

/// The predicate "the entry's chronological key is `k`".
pub open spec fn key_is(k: int) -> spec_fn(EntryV) -> bool {
    |e: EntryV| e.key() == k
}

pub open spec fn key_not(k: int) -> spec_fn(EntryV) -> bool {
    |e: EntryV| e.key() != k
}

/// The predicate "the entry's group is `n`".
pub open spec fn group_is(n: Seq<char>) -> spec_fn(EntryV) -> bool {
    |e: EntryV| e.group == n
}

pub open spec fn group_not(n: Seq<char>) -> spec_fn(EntryV) -> bool {
    |e: EntryV| e.group != n
}

/// The predicate "the entry's subgroup is `n`".
pub open spec fn sub_is(n: Seq<char>) -> spec_fn(EntryV) -> bool {
    |e: EntryV| e.subgroup == n
}

pub open spec fn sub_not(n: Seq<char>) -> spec_fn(EntryV) -> bool {
    |e: EntryV| e.subgroup != n
}

/// The subgroup lines of a month-and-group bucket, in first-seen order.
pub open spec fn subs_of(b: Seq<EntryV>) -> Seq<SubV>
    decreases b.len(),
    via subs_of_dec
{
    if b.len() == 0 {
        Seq::empty()
    } else {
        let n = b[0].subgroup;
        let mine = b.filter(sub_is(n));
        let rest = b.filter(sub_not(n));
        seq![SubV { name: n, total: sum_amounts(mine) }] + subs_of(rest)
    }
}

#[via_fn]
proof fn subs_of_dec(b: Seq<EntryV>) {
    if b.len() > 0 {
        let n = b[0].subgroup;
        lemma_filter_lt(b, sub_not(n), 0);
    }
}

/// The group parts of one month's bucket, in first-seen order.
pub open spec fn groups_of(b: Seq<EntryV>) -> Seq<GroupV>
    decreases b.len(),
    via groups_of_dec
{
    if b.len() == 0 {
        Seq::empty()
    } else {
        let n = b[0].group;
        let mine = b.filter(group_is(n));
        let rest = b.filter(group_not(n));
        seq![GroupV { name: n, total: sum_amounts(mine), subs: subs_of(mine) }] + groups_of(rest)
    }
}

#[via_fn]
proof fn groups_of_dec(b: Seq<EntryV>) {
    if b.len() > 0 {
        let n = b[0].group;
        lemma_filter_lt(b, group_not(n), 0);
    }
}

/// The whole summary of a sequence of entries: months in chronological
/// order, each with its groups and subgroups.
pub open spec fn report_of(s: Seq<EntryV>) -> Seq<MonthV>
    decreases s.len(),
    via report_of_dec
{
    if s.len() == 0 {
        Seq::empty()
    } else {
        let k = min_key(s);
        let mine = s.filter(key_is(k));
        let rest = s.filter(key_not(k));
        seq![
            MonthV { year: k / 12, month: month_of_num(k % 12 + 1), groups: groups_of(mine) },
        ] + report_of(rest)
    }
}

#[via_fn]
proof fn report_of_dec(s: Seq<EntryV>) {
    if s.len() > 0 {
        let k = min_key(s);
        let wi = lemma_min_key(s);
        lemma_filter_lt(s, key_not(k), wi);
    }
}

fn split_by_key(entries: Vec<Entry>, k: i64) -> (r: (Vec<Entry>, Vec<Entry>))
    ensures
        views_of(r.0@) == views_of(entries@).filter(key_is(k as int)),
        views_of(r.1@) == views_of(entries@).filter(key_not(k as int)),
        r.0@.len() + r.1@.len() == entries@.len(),
{
    broadcast use Seq::lemma_filter_push;

    let ghost orig = views_of(entries@);
    let ghost p = key_is(k as int);
    let ghost np = key_not(k as int);
    let mut entries = entries;
    let mut yes: Vec<Entry> = Vec::new();
    let mut no: Vec<Entry> = Vec::new();
    let ghost mut done: Seq<EntryV> = Seq::empty();
    proof {
        assert(done + views_of(entries@) =~= orig);
        assert(views_of(yes@) =~= done.filter(p));
        assert(views_of(no@) =~= done.filter(np));
    }
    while entries.len() > 0
        invariant
            orig == done + views_of(entries@),
            views_of(yes@) == done.filter(p),
            views_of(no@) == done.filter(np),
            yes@.len() + no@.len() == done.len(),
            p == key_is(k as int),
            np == key_not(k as int),
        decreases entries@.len(),
    {
        let ghost before = views_of(entries@);
        let e = entries.remove(0);
        let ghost done0 = done;
        proof {
            done = done.push(e@);
            assert(before[0] == e@);
            assert(views_of(entries@) =~= before.skip(1));
        }
        let keep = e.key() == k;
        proof {
            assert(keep == p(e@));
            assert(np(e@) == !p(e@));
            assert(done == done0.push(e@));
            done0.lemma_filter_push(e@, p);
            done0.lemma_filter_push(e@, np);
        }
        if keep {
            yes.push(e);
            proof {
                assert(views_of(yes@) =~= done0.filter(p).push(e@));
            }
        } else {
            no.push(e);
            proof {
                assert(views_of(no@) =~= done0.filter(np).push(e@));
            }
        }
        proof {
            assert(done + views_of(entries@) =~= done0 + before);
        }
    }
    proof {
        assert(done =~= orig);
    }
    (yes, no)
}

fn split_by_group(entries: Vec<Entry>, g: &Vec<char>) -> (r: (Vec<Entry>, Vec<Entry>))
    ensures
        views_of(r.0@) == views_of(entries@).filter(group_is(g@)),
        views_of(r.1@) == views_of(entries@).filter(group_not(g@)),
        r.0@.len() + r.1@.len() == entries@.len(),
{
    broadcast use Seq::lemma_filter_push;

    let ghost orig = views_of(entries@);
    let ghost p = group_is(g@);
    let ghost np = group_not(g@);
    let mut entries = entries;
    let mut yes: Vec<Entry> = Vec::new();
    let mut no: Vec<Entry> = Vec::new();
    let ghost mut done: Seq<EntryV> = Seq::empty();
    proof {
        assert(done + views_of(entries@) =~= orig);
        assert(views_of(yes@) =~= done.filter(p));
        assert(views_of(no@) =~= done.filter(np));
    }
    while entries.len() > 0
        invariant
            orig == done + views_of(entries@),
            views_of(yes@) == done.filter(p),
            views_of(no@) == done.filter(np),
            yes@.len() + no@.len() == done.len(),
            p == group_is(g@),
            np == group_not(g@),
        decreases entries@.len(),
    {
        let ghost before = views_of(entries@);
        let e = entries.remove(0);
        let ghost done0 = done;
        proof {
            done = done.push(e@);
            assert(before[0] == e@);
            assert(views_of(entries@) =~= before.skip(1));
        }
        let keep = crate::text::chars_eq(&e.group, g);
        proof {
            assert(keep == p(e@));
            assert(np(e@) == !p(e@));
            assert(done == done0.push(e@));
            done0.lemma_filter_push(e@, p);
            done0.lemma_filter_push(e@, np);
        }
        if keep {
            yes.push(e);
            proof {
                assert(views_of(yes@) =~= done0.filter(p).push(e@));
            }
        } else {
            no.push(e);
            proof {
                assert(views_of(no@) =~= done0.filter(np).push(e@));
            }
        }
        proof {
            assert(done + views_of(entries@) =~= done0 + before);
        }
    }
    proof {
        assert(done =~= orig);
    }
    (yes, no)
}

fn split_by_subgroup(entries: Vec<Entry>, g: &Vec<char>) -> (r: (Vec<Entry>, Vec<Entry>))
    ensures
        views_of(r.0@) == views_of(entries@).filter(sub_is(g@)),
        views_of(r.1@) == views_of(entries@).filter(sub_not(g@)),
        r.0@.len() + r.1@.len() == entries@.len(),
{
    broadcast use Seq::lemma_filter_push;

    let ghost orig = views_of(entries@);
    let ghost p = sub_is(g@);
    let ghost np = sub_not(g@);
    let mut entries = entries;
    let mut yes: Vec<Entry> = Vec::new();
    let mut no: Vec<Entry> = Vec::new();
    let ghost mut done: Seq<EntryV> = Seq::empty();
    proof {
        assert(done + views_of(entries@) =~= orig);
        assert(views_of(yes@) =~= done.filter(p));
        assert(views_of(no@) =~= done.filter(np));
    }
    while entries.len() > 0
        invariant
            orig == done + views_of(entries@),
            views_of(yes@) == done.filter(p),
            views_of(no@) == done.filter(np),
            yes@.len() + no@.len() == done.len(),
            p == sub_is(g@),
            np == sub_not(g@),
        decreases entries@.len(),
    {
        let ghost before = views_of(entries@);
        let e = entries.remove(0);
        let ghost done0 = done;
        proof {
            done = done.push(e@);
            assert(before[0] == e@);
            assert(views_of(entries@) =~= before.skip(1));
        }
        let keep = crate::text::chars_eq(&e.subgroup, g);
        proof {
            assert(p(e@) == (e@.subgroup == g@));
            assert(np(e@) == (e@.subgroup != g@));
            assert(keep == p(e@));
            assert(np(e@) == !p(e@));
            assert(done == done0.push(e@));
            done0.lemma_filter_push(e@, p);
            done0.lemma_filter_push(e@, np);
        }
        if keep {
            yes.push(e);
            proof {
                assert(views_of(yes@) =~= done0.filter(p).push(e@));
            }
        } else {
            no.push(e);
            proof {
                assert(views_of(no@) =~= done0.filter(np).push(e@));
            }
        }
        proof {
            assert(done + views_of(entries@) =~= done0 + before);
        }
    }
    proof {
        assert(done =~= orig);
    }
    (yes, no)
}

/// The sum of the amounts of the entries, as a 128-bit value: wide enough
/// that no sum of 64-bit amounts can overflow it.
pub fn sum_entries(v: &Vec<Entry>) -> (t: i128)
    ensures
        t as int == sum_amounts(views_of(v@)),
{
    let ghost evs = views_of(v@);
    let mut acc: i128 = 0;
    let mut i: usize = 0;
    while i < v.len()
        invariant
            i <= v@.len(),
            evs == views_of(v@),
            acc as int == sum_amounts(evs.take(i as int)),
            -(i as int) * 0x8000_0000_0000_0000 <= acc as int,
            acc as int <= (i as int) * 0x7FFF_FFFF_FFFF_FFFF,
        decreases v@.len() - i,
    {
        let a = v[i].amount;
        proof {
            assert(evs.take(i + 1).drop_last() =~= evs.take(i as int));
            assert(evs.take(i + 1).last() == evs[i as int]);
            assert(evs[i as int].amount == a as int);
            assert(i as int + 1 <= 0x1_0000_0000_0000_0000) by {
                assert(i < v@.len() <= usize::MAX);
            }
            assert(-(i as int + 1) * 0x8000_0000_0000_0000
                >= -0x8000_0000_0000_0000_0000_0000_0000_0000) by (nonlinear_arith)
                requires
                    0 <= i as int + 1 <= 0x1_0000_0000_0000_0000,
            ;
            assert((i as int + 1) * 0x7FFF_FFFF_FFFF_FFFF
                <= 0x7FFF_FFFF_FFFF_FFFF_FFFF_FFFF_FFFF_FFFF) by (nonlinear_arith)
                requires
                    0 <= i as int + 1 <= 0x1_0000_0000_0000_0000,
            ;
            assert(-(i as int + 1) * 0x8000_0000_0000_0000 == -(i as int) * 0x8000_0000_0000_0000
                - 0x8000_0000_0000_0000) by (nonlinear_arith);
            assert((i as int + 1) * 0x7FFF_FFFF_FFFF_FFFF == (i as int) * 0x7FFF_FFFF_FFFF_FFFF
                + 0x7FFF_FFFF_FFFF_FFFF) by (nonlinear_arith);
        }
        acc = acc + (a as i128);
        i = i + 1;
    }
    proof {
        assert(evs.take(v@.len() as int) =~= evs);
    }
    acc
}

proof fn lemma_month_of_num_id(m: Month)
    ensures
        month_of_num(m.num()) == m,
{
}

/// The subgroup lines of one group's entries.
fn summarize_subs(gb: Vec<Entry>) -> (r: Vec<SubSummary>)
    ensures
        r@.map_values(|x: SubSummary| x@) == subs_of(views_of(gb@)),
    decreases gb@.len(),
{
    let ghost b = views_of(gb@);
    if gb.len() == 0 {
        proof {
            assert(Seq::<SubSummary>::empty().map_values(|x: SubSummary| x@) =~= Seq::<
                SubV,
            >::empty());
            assert(b =~= Seq::<EntryV>::empty());
        }
        return Vec::new();
    }
    let name = crate::text::copy_chars(&gb[0].subgroup);
    proof {
        assert(b[0] == gb@[0]@);
    }
    let (mine, rest) = split_by_subgroup(gb, &name);
    let total = sum_entries(&mine);
    proof {
        if views_of(rest@).len() >= gb@.len() {
            lemma_filter_lt(b, sub_not(b[0].subgroup), 0);
            assert(false);
        }
    }
    let mut out = summarize_subs(rest);
    out.insert(0, SubSummary { name, total });
    proof {
        let sv = SubV { name: b[0].subgroup, total: sum_amounts(b.filter(sub_is(b[0].subgroup))) };
        assert(out@.map_values(|x: SubSummary| x@) =~= seq![sv] + subs_of(b.filter(sub_not(
            b[0].subgroup))));
    }
    out
}

/// The group parts of one month's entries.
fn summarize_groups(bucket: Vec<Entry>) -> (r: Vec<GroupSummary>)
    ensures
        r@.map_values(|x: GroupSummary| x@) == groups_of(views_of(bucket@)),
    decreases bucket@.len(),
{
    let ghost b = views_of(bucket@);
    if bucket.len() == 0 {
        proof {
            assert(Seq::<GroupSummary>::empty().map_values(|x: GroupSummary| x@) =~= Seq::<
                GroupV,
            >::empty());
            assert(b =~= Seq::<EntryV>::empty());
        }
        return Vec::new();
    }
    let name = crate::text::copy_chars(&bucket[0].group);
    proof {
        assert(b[0] == bucket@[0]@);
    }
    let (mine, rest) = split_by_group(bucket, &name);
    let total = sum_entries(&mine);
    let subs = summarize_subs(mine);
    proof {
        if views_of(rest@).len() >= bucket@.len() {
            lemma_filter_lt(b, group_not(b[0].group), 0);
            assert(false);
        }
    }
    let mut out = summarize_groups(rest);
    out.insert(0, GroupSummary { name, total, subs });
    proof {
        let mine_v = b.filter(group_is(b[0].group));
        let gv = GroupV {
            name: b[0].group,
            total: sum_amounts(mine_v),
            subs: subs_of(mine_v),
        };
        assert(out@.map_values(|x: GroupSummary| x@) =~= seq![gv] + groups_of(b.filter(group_not(
            b[0].group))));
    }
    out
}

fn find_min_key(entries: &Vec<Entry>) -> (k: i64)
    requires
        entries@.len() > 0,
    ensures
        k as int == min_key(views_of(entries@)),
{
    let ghost evs = views_of(entries@);
    let mut k = entries[0].key();
    let mut i: usize = 1;
    proof {
        assert(evs.take(1).drop_last() =~= Seq::<EntryV>::empty());
        assert(evs.take(1)[0] == evs[0]);
    }
    while i < entries.len()
        invariant
            1 <= i <= evs.len(),
            evs == views_of(entries@),
            k as int == min_key(evs.take(i as int)),
        decreases evs.len() - i,
    {
        let ck = entries[i].key();
        proof {
            assert(evs.take(i + 1).drop_last() =~= evs.take(i as int));
            assert(evs.take(i + 1).last() == evs[i as int]);
            assert(evs.take(i + 1).len() > 1);
        }
        if ck < k {
            k = ck;
        }
        i = i + 1;
    }
    proof {
        assert(evs.take(evs.len() as int) =~= evs);
    }
    k
}

/// The whole summary of the given entries: months in chronological order,
/// groups and subgroups in first-seen order, sums at every level. The
/// result is exactly `report_of` of the entries.
pub fn summarize(entries: Vec<Entry>) -> (r: Vec<MonthSummary>)
    ensures
        month_views(r@) == report_of(views_of(entries@)),
    decreases entries@.len(),
{
    let ghost s = views_of(entries@);
    if entries.len() == 0 {
        proof {
            assert(Seq::<MonthSummary>::empty().map_values(|m: MonthSummary| m@) =~= Seq::<
                MonthV,
            >::empty());
            assert(s =~= Seq::<EntryV>::empty());
        }
        return Vec::new();
    }
    let k = find_min_key(&entries);
    let (mine, rest) = split_by_key(entries, k);
    proof {
        let wi = lemma_min_key(s);
        broadcast use vstd::seq_lib::group_filter_ensures;

        assert(key_is(k as int)(s[wi]));
        assert(s.filter(key_is(k as int)).contains(s[wi]));
        assert(views_of(mine@).len() > 0);
        if views_of(rest@).len() >= s.len() {
            lemma_filter_lt(s, key_not(k as int), wi);
            assert(false);
        }
    }
    let y = mine[0].year;
    let m = mine[0].month;
    proof {
        let mv = views_of(mine@);
        assert(mv[0] == mine@[0]@);
        assert(mv[0].key() == k as int) by {
            assert(key_is(k as int)(mv[0]));
        }
        assert(mv[0].year * 12 + (mv[0].month.num() - 1) == k as int);
        assert(0 <= mv[0].month.num() - 1 < 12);
        lemma_fundamental_div_mod_converse(k as int, 12, mv[0].year, mv[0].month.num() - 1);
        assert(y as int == (k as int) / 12);
        assert(mv[0].month.num() == (k as int) % 12 + 1);
        lemma_month_of_num_id(m);
        assert(month_of_num((k as int) % 12 + 1) == m);
    }
    let groups = summarize_groups(mine);
    let mut out = summarize(rest);
    out.insert(0, MonthSummary { year: y, month: m, groups });
    proof {
        let kk = min_key(s);
        let mv = MonthV { year: kk / 12, month: month_of_num(kk % 12 + 1), groups: groups_of(
            s.filter(key_is(kk))) };
        assert(month_views(out@) =~= seq![mv] + report_of(s.filter(key_not(kk))));
    }
    out
}

/// The chronological key of a summary month.
pub open spec fn mkey(mv: MonthV) -> int {
    mv.year * 12 + mv.month.num() - 1
}

proof fn lemma_month_of_num_num(n: int)
    requires
        1 <= n <= 12,
    ensures
        month_of_num(n).num() == n,
{
}

proof fn lemma_sum_subs_cons(x: SubV, ys: Seq<SubV>)
    ensures
        sum_subs(seq![x] + ys) == x.total + sum_subs(ys),
    decreases ys.len(),
{
    if ys.len() == 0 {
        assert(seq![x] + ys =~= seq![x]);
        assert(seq![x].drop_last() =~= Seq::<SubV>::empty());
        assert(sum_subs(Seq::<SubV>::empty()) == 0);
    } else {
        lemma_sum_subs_cons(x, ys.drop_last());
        assert((seq![x] + ys).drop_last() =~= seq![x] + ys.drop_last());
        assert((seq![x] + ys).last() == ys.last());
    }
}

proof fn lemma_sum_groups_cons(x: GroupV, ys: Seq<GroupV>)
    ensures
        sum_groups(seq![x] + ys) == x.total + sum_groups(ys),
    decreases ys.len(),
{
    if ys.len() == 0 {
        assert(seq![x] + ys =~= seq![x]);
        assert(seq![x].drop_last() =~= Seq::<GroupV>::empty());
        assert(sum_groups(Seq::<GroupV>::empty()) == 0);
    } else {
        lemma_sum_groups_cons(x, ys.drop_last());
        assert((seq![x] + ys).drop_last() =~= seq![x] + ys.drop_last());
        assert((seq![x] + ys).last() == ys.last());
    }
}

/// Splitting a sequence by a predicate splits its sum.
proof fn lemma_sum_partition(s: Seq<EntryV>, p: spec_fn(EntryV) -> bool, q: spec_fn(
    EntryV,
) -> bool)
    requires
        forall|e: EntryV| #[trigger] q(e) == !p(e),
    ensures
        sum_amounts(s.filter(p)) + sum_amounts(s.filter(q)) == sum_amounts(s),
    decreases s.len(),
{
    broadcast use Seq::lemma_filter_push;

    if s.len() > 0 {
        lemma_sum_partition(s.drop_last(), p, q);
        let d = s.drop_last();
        assert(d.push(s.last()) =~= s);
        d.lemma_filter_push(s.last(), p);
        d.lemma_filter_push(s.last(), q);
        if p(s.last()) {
            assert(s.filter(p) == d.filter(p).push(s.last()));
            assert(sum_amounts(s.filter(p)) == sum_amounts(d.filter(p)) + s.last().amount) by {
                assert(d.filter(p).push(s.last()).drop_last() =~= d.filter(p));
            }
        } else {
            assert(s.filter(q) == d.filter(q).push(s.last()));
            assert(sum_amounts(s.filter(q)) == sum_amounts(d.filter(q)) + s.last().amount) by {
                assert(d.filter(q).push(s.last()).drop_last() =~= d.filter(q));
            }
        }
    }
}

/// The subgroup totals of a bucket sum to the bucket's total.
proof fn lemma_subs_total(b: Seq<EntryV>)
    ensures
        sum_subs(subs_of(b)) == sum_amounts(b),
    decreases b.len(),
{
    if b.len() > 0 {
        let n = b[0].subgroup;
        let mine = b.filter(sub_is(n));
        let rest = b.filter(sub_not(n));
        lemma_filter_lt(b, sub_not(n), 0);
        lemma_subs_total(rest);
        assert(forall|e: EntryV| #[trigger] sub_not(n)(e) == !sub_is(n)(e));
        lemma_sum_partition(b, sub_is(n), sub_not(n));
        lemma_sum_subs_cons(SubV { name: n, total: sum_amounts(mine) }, subs_of(rest));
    }
}

/// The group totals of a bucket sum to the bucket's total.
proof fn lemma_groups_total(b: Seq<EntryV>)
    ensures
        sum_groups(groups_of(b)) == sum_amounts(b),
    decreases b.len(),
{
    if b.len() > 0 {
        let n = b[0].group;
        let mine = b.filter(group_is(n));
        let rest = b.filter(group_not(n));
        lemma_filter_lt(b, group_not(n), 0);
        lemma_groups_total(rest);
        assert(forall|e: EntryV| #[trigger] group_not(n)(e) == !group_is(n)(e));
        lemma_sum_partition(b, group_is(n), group_not(n));
        lemma_sum_groups_cons(
            GroupV { name: n, total: sum_amounts(mine), subs: subs_of(mine) },
            groups_of(rest),
        );
    }
}

/// Each group's total equals the sum of its subgroup totals.
proof fn lemma_groups_consistent(b: Seq<EntryV>)
    ensures
        forall|j: int| 0 <= j < groups_of(b).len() ==> (#[trigger] groups_of(b)[j]).total
            == sum_subs(groups_of(b)[j].subs),
    decreases b.len(),
{
    if b.len() > 0 {
        let n = b[0].group;
        let mine = b.filter(group_is(n));
        let rest = b.filter(group_not(n));
        lemma_filter_lt(b, group_not(n), 0);
        lemma_groups_consistent(rest);
        lemma_subs_total(mine);
        assert(forall|j: int| 1 <= j < groups_of(b).len() ==> groups_of(b)[j] == groups_of(rest)[j
            - 1]);
    }
}

/// The head month of a summary carries the minimum key.
proof fn lemma_head_key(s: Seq<EntryV>)
    requires
        s.len() > 0,
    ensures
        report_of(s).len() > 0,
        mkey(report_of(s)[0]) == min_key(s),
        report_of(s)[0].groups == groups_of(s.filter(key_is(min_key(s)))),
        forall|i: int| 1 <= i < report_of(s).len() ==> #[trigger] report_of(s)[i] == report_of(
            s.filter(key_not(min_key(s))))[i - 1],
        report_of(s).len() == 1 + report_of(s.filter(key_not(min_key(s)))).len(),
{
    let k = min_key(s);
    let m0 = report_of(s)[0];
    assert(0 <= k % 12 < 12) by (nonlinear_arith);
    lemma_month_of_num_num(k % 12 + 1);
    assert(mkey(m0) == (k / 12) * 12 + k % 12);
    assert((k / 12) * 12 + k % 12 == k) by {
        vstd::arithmetic::div_mod::lemma_fundamental_div_mod(k, 12);
    }
}

/// Every month of the summary is the month of some entry.
proof fn lemma_report_keys_present(s: Seq<EntryV>)
    ensures
        forall|i: int| 0 <= i < report_of(s).len() ==> exists|j: int| 0 <= j < s.len()
            && s[j].key() == mkey(#[trigger] report_of(s)[i]),
    decreases s.len(),
{
    broadcast use vstd::seq_lib::group_filter_ensures;

    if s.len() > 0 {
        let k = min_key(s);
        let wi = lemma_min_key(s);
        lemma_filter_lt(s, key_not(k), wi);
        let rest = s.filter(key_not(k));
        lemma_report_keys_present(rest);
        lemma_head_key(s);
        let r = report_of(s);
        assert forall|i: int| 0 <= i < r.len() implies exists|j: int| 0 <= j < s.len()
            && s[j].key() == mkey(#[trigger] r[i]) by {
            if i == 0 {
                assert(s[wi].key() == mkey(r[0]));
            } else {
                assert(exists|j: int| 0 <= j < rest.len() && rest[j].key() == mkey(
                    report_of(rest)[i - 1]));
                let jj = choose|j: int| 0 <= j < rest.len() && rest[j].key() == mkey(
                    report_of(rest)[i - 1]);
                assert(rest.contains(rest[jj]));
                s.lemma_filter_contains_rev(key_not(k), rest[jj]);
                assert(s.contains(rest[jj]));
                let js = choose|j: int| 0 <= j < s.len() && s[j] == rest[jj];
                assert(s[js].key() == mkey(r[i]));
            }
        }
    }
}

/// Behind the head, every month's key exceeds the minimum.
proof fn lemma_rest_keys_above(s: Seq<EntryV>)
    requires
        s.len() > 0,
    ensures
        forall|i: int| 1 <= i < report_of(s).len() ==> mkey(#[trigger] report_of(s)[i])
            > min_key(s),
{
    broadcast use vstd::seq_lib::group_filter_ensures;

    let k = min_key(s);
    let wi = lemma_min_key(s);
    lemma_filter_lt(s, key_not(k), wi);
    let rest = s.filter(key_not(k));
    lemma_report_keys_present(rest);
    lemma_head_key(s);
    let r = report_of(s);
    assert forall|i: int| 1 <= i < r.len() implies mkey(#[trigger] r[i]) > k by {
        assert(exists|j: int| 0 <= j < rest.len() && rest[j].key() == mkey(
            report_of(rest)[i - 1]));
        let jj = choose|j: int| 0 <= j < rest.len() && rest[j].key() == mkey(
            report_of(rest)[i - 1]);
        assert(rest.contains(rest[jj]));
        s.lemma_filter_contains_rev(key_not(k), rest[jj]);
        assert(s.contains(rest[jj]));
        let js = choose|j: int| 0 <= j < s.len() && s[j] == rest[jj];
        assert(key_not(k)(rest[jj]));
        assert(s[js].key() >= k);
        assert(rest[jj].key() > k);
    }
}

/// The months of the summary are strictly chronological.
proof fn lemma_report_sorted(s: Seq<EntryV>)
    ensures
        forall|i: int, j: int| 0 <= i < j < report_of(s).len() ==> mkey(#[trigger] report_of(
            s,
        )[i]) < mkey(#[trigger] report_of(s)[j]),
    decreases s.len(),
{
    broadcast use vstd::seq_lib::group_filter_ensures;

    if s.len() > 0 {
        let k = min_key(s);
        let wi = lemma_min_key(s);
        lemma_filter_lt(s, key_not(k), wi);
        let rest = s.filter(key_not(k));
        lemma_report_sorted(rest);
        lemma_rest_keys_above(s);
        lemma_head_key(s);
        let r = report_of(s);
        assert forall|i: int, j: int| 0 <= i < j < r.len() implies mkey(#[trigger] r[i]) < mkey(
            #[trigger] r[j]) by {
            if i > 0 {
                assert(mkey(report_of(rest)[i - 1]) < mkey(report_of(rest)[j - 1]));
            }
        }
    }
}

/// Each month's groups are the grouping of that month's bucket of the
/// whole input.
proof fn lemma_report_buckets(s: Seq<EntryV>)
    ensures
        forall|i: int| 0 <= i < report_of(s).len() ==> (#[trigger] report_of(s)[i]).groups
            == groups_of(s.filter(key_is(mkey(report_of(s)[i])))),
    decreases s.len(),
{
    broadcast use vstd::seq_lib::group_filter_ensures;

    if s.len() > 0 {
        let k = min_key(s);
        let wi = lemma_min_key(s);
        lemma_filter_lt(s, key_not(k), wi);
        let rest = s.filter(key_not(k));
        lemma_report_buckets(rest);
        lemma_rest_keys_above(s);
        lemma_head_key(s);
        let r = report_of(s);
        assert forall|i: int| 0 <= i < r.len() implies (#[trigger] r[i]).groups == groups_of(
            s.filter(key_is(mkey(r[i])))) by {
            if i > 0 {
                let ki = mkey(r[i]);
                assert(r[i].groups == groups_of(rest.filter(key_is(ki))));
                lemma_filter_filter(s, key_not(k), key_is(ki));
                assert(ki != k);
                assert(forall|e: EntryV| (key_not(k)(e) && #[trigger] key_is(ki)(e)) == key_is(
                    ki)(e));
                lemma_filter_ext(s, |e: EntryV| key_not(k)(e) && key_is(ki)(e), key_is(ki));
            }
        }
    }
}

/// Every entry's month appears in the summary.
proof fn lemma_report_covers(s: Seq<EntryV>)
    ensures
        forall|j: int| 0 <= j < s.len() ==> exists|i: int| 0 <= i < report_of(s).len() && mkey(
            report_of(s)[i]) == (#[trigger] s[j]).key(),
    decreases s.len(),
{
    broadcast use vstd::seq_lib::group_filter_ensures;

    if s.len() > 0 {
        let k = min_key(s);
        let wi = lemma_min_key(s);
        lemma_filter_lt(s, key_not(k), wi);
        let rest = s.filter(key_not(k));
        lemma_report_covers(rest);
        lemma_head_key(s);
        let r = report_of(s);
        assert forall|j: int| 0 <= j < s.len() implies exists|i: int| 0 <= i < r.len() && mkey(
            r[i]) == (#[trigger] s[j]).key() by {
            if s[j].key() == k {
                assert(mkey(r[0]) == s[j].key());
            } else {
                assert(key_not(k)(s[j]));
                assert(rest.contains(s[j]));
                let jr = choose|jj: int| 0 <= jj < rest.len() && rest[jj] == s[j];
                assert(exists|i: int| 0 <= i < report_of(rest).len() && mkey(report_of(rest)[i])
                    == (rest[jr]).key());
                let ir = choose|i: int| 0 <= i < report_of(rest).len() && mkey(
                    report_of(rest)[i]) == rest[jr].key();
                assert(mkey(r[ir + 1]) == s[j].key());
            }
        }
    }
}

/// The summary is correct as a whole: its months are strictly
/// chronological; each month's groups are exactly the grouping of that
/// month's bucket of the input; a month appears only if some entry has its
/// key; and every entry's month appears.
pub proof fn lemma_report_correct(s: Seq<EntryV>)
    ensures
        forall|i: int, j: int| 0 <= i < j < report_of(s).len() ==> mkey(#[trigger] report_of(
            s,
        )[i]) < mkey(#[trigger] report_of(s)[j]),
        forall|i: int| 0 <= i < report_of(s).len() ==> (#[trigger] report_of(s)[i]).groups
            == groups_of(s.filter(key_is(mkey(report_of(s)[i])))),
        forall|i: int| 0 <= i < report_of(s).len() ==> exists|j: int| 0 <= j < s.len()
            && s[j].key() == mkey(#[trigger] report_of(s)[i]),
        forall|j: int| 0 <= j < s.len() ==> exists|i: int| 0 <= i < report_of(s).len() && mkey(
            report_of(s)[i]) == (#[trigger] s[j]).key(),
{
    lemma_report_sorted(s);
    lemma_report_buckets(s);
    lemma_report_keys_present(s);
    lemma_report_covers(s);
}

/// For every month of the summary, the group totals sum to the total of
/// all entries of that calendar month, and every group's total is the sum
/// of its subgroup totals.
pub proof fn lemma_aggregation_totals(s: Seq<EntryV>)
    ensures
        forall|i: int| 0 <= i < report_of(s).len() ==> sum_groups(
            (#[trigger] report_of(s)[i]).groups,
        ) == sum_amounts(s.filter(key_is(mkey(report_of(s)[i])))),
        forall|i: int, j: int| 0 <= i < report_of(s).len() && 0 <= j < report_of(s)[i].groups.len()
            ==> (#[trigger] report_of(s)[i].groups[j]).total == sum_subs(
            report_of(s)[i].groups[j].subs),
{
    lemma_report_correct(s);
    assert forall|i: int| 0 <= i < report_of(s).len() implies sum_groups(
        (#[trigger] report_of(s)[i]).groups,
    ) == sum_amounts(s.filter(key_is(mkey(report_of(s)[i])))) by {
        lemma_groups_total(s.filter(key_is(mkey(report_of(s)[i]))));
    }
    assert forall|i: int, j: int|
        0 <= i < report_of(s).len() && 0 <= j < report_of(s)[i].groups.len() implies (
    #[trigger] report_of(s)[i].groups[j]).total == sum_subs(report_of(s)[i].groups[j].subs) by {
        lemma_groups_consistent(s.filter(key_is(mkey(report_of(s)[i]))));
    }
}


/// Whether every amount fits a 64-bit signed integer, as the amounts of
/// stored entries do.
pub open spec fn amounts_i64(s: Seq<EntryV>) -> bool {
    forall|i: int| 0 <= i < s.len() ==> -0x8000_0000_0000_0000 <= (#[trigger] s[i]).amount
        < 0x8000_0000_0000_0000
}

proof fn lemma_sum_amounts_bound(s: Seq<EntryV>)
    requires
        amounts_i64(s),
    ensures
        -(s.len() as int) * 0x8000_0000_0000_0000 <= sum_amounts(s),
        sum_amounts(s) <= (s.len() as int) * 0x8000_0000_0000_0000,
    decreases s.len(),
{
    if s.len() == 0 {
    } else {
        assert(amounts_i64(s.drop_last())) by {
            assert(forall|i: int| 0 <= i < s.len() - 1 ==> s.drop_last()[i] == s[i]);
        }
        lemma_sum_amounts_bound(s.drop_last());
        assert(-(s.len() as int) * 0x8000_0000_0000_0000 == -(s.len() - 1) * 0x8000_0000_0000_0000
            - 0x8000_0000_0000_0000) by (nonlinear_arith);
        assert((s.len() as int) * 0x8000_0000_0000_0000 == (s.len() - 1) * 0x8000_0000_0000_0000
            + 0x8000_0000_0000_0000) by (nonlinear_arith);
    }
}

proof fn lemma_filter_amounts(s: Seq<EntryV>, p: spec_fn(EntryV) -> bool)
    requires
        amounts_i64(s),
    ensures
        amounts_i64(s.filter(p)),
        s.filter(p).len() <= s.len(),
{
    broadcast use vstd::seq_lib::group_filter_ensures;

    assert forall|i: int| 0 <= i < s.filter(p).len() implies -0x8000_0000_0000_0000 <= (
    #[trigger] s.filter(p)[i]).amount < 0x8000_0000_0000_0000 by {
        assert(s.filter(p).contains(s.filter(p)[i]));
        s.lemma_filter_contains_rev(p, s.filter(p)[i]);
        let j = choose|j: int| 0 <= j < s.len() && s[j] == s.filter(p)[i];
        assert(s[j].amount == s.filter(p)[i].amount);
    }
}

proof fn lemma_subs_totals_bound(b: Seq<EntryV>, m: int)
    requires
        amounts_i64(b),
        b.len() <= m,
        m * 0x8000_0000_0000_0000 < 0x8000_0000_0000_0000_0000_0000_0000_0000,
        0 <= m,
    ensures
        forall|l: int| 0 <= l < subs_of(b).len() ==> (#[trigger] subs_of(b)[l]).total
            > i128::MIN,
    decreases b.len(),
{
    if b.len() > 0 {
        let n = b[0].subgroup;
        let mine = b.filter(sub_is(n));
        let rest = b.filter(sub_not(n));
        lemma_filter_lt(b, sub_not(n), 0);
        lemma_filter_amounts(b, sub_is(n));
        lemma_filter_amounts(b, sub_not(n));
        lemma_sum_amounts_bound(mine);
        assert((mine.len() as int) * 0x8000_0000_0000_0000 <= m * 0x8000_0000_0000_0000)
            by (nonlinear_arith)
            requires
                0 <= mine.len() <= m,
        ;
        lemma_subs_totals_bound(rest, m);
        assert(forall|l: int| 1 <= l < subs_of(b).len() ==> subs_of(b)[l] == subs_of(rest)[l - 1]);
    }
}

proof fn lemma_groups_totals_bound(b: Seq<EntryV>, m: int)
    requires
        amounts_i64(b),
        b.len() <= m,
        m * 0x8000_0000_0000_0000 < 0x8000_0000_0000_0000_0000_0000_0000_0000,
        0 <= m,
    ensures
        forall|j: int| 0 <= j < groups_of(b).len() ==> ((#[trigger] groups_of(b)[j]).total
            > i128::MIN && forall|l: int| 0 <= l < groups_of(b)[j].subs.len() ==> (
        #[trigger] groups_of(b)[j].subs[l]).total > i128::MIN),
    decreases b.len(),
{
    if b.len() > 0 {
        let n = b[0].group;
        let mine = b.filter(group_is(n));
        let rest = b.filter(group_not(n));
        lemma_filter_lt(b, group_not(n), 0);
        lemma_filter_amounts(b, group_is(n));
        lemma_filter_amounts(b, group_not(n));
        lemma_sum_amounts_bound(mine);
        assert((mine.len() as int) * 0x8000_0000_0000_0000 <= m * 0x8000_0000_0000_0000)
            by (nonlinear_arith)
            requires
                0 <= mine.len() <= m,
        ;
        lemma_subs_totals_bound(mine, m);
        lemma_groups_totals_bound(rest, m);
        assert(forall|j: int| 1 <= j < groups_of(b).len() ==> groups_of(b)[j] == groups_of(
            rest)[j - 1]);
    }
}

/// With 64-bit amounts and no more entries than a machine can address, no
/// total of the summary reaches the formatter's one unwritable value.
pub proof fn lemma_report_totals_in_range(s: Seq<EntryV>)
    requires
        amounts_i64(s),
        s.len() <= 0xFFFF_FFFF_FFFF_FFFF,
    ensures
        crate::render::totals_in_range(report_of(s)),
    decreases s.len(),
{
    if s.len() > 0 {
        let k = min_key(s);
        let wi = lemma_min_key(s);
        lemma_filter_lt(s, key_not(k), wi);
        let mine = s.filter(key_is(k));
        let rest = s.filter(key_not(k));
        lemma_filter_amounts(s, key_is(k));
        lemma_filter_amounts(s, key_not(k));
        assert(0xFFFF_FFFF_FFFF_FFFF * 0x8000_0000_0000_0000
            < 0x8000_0000_0000_0000_0000_0000_0000_0000) by (nonlinear_arith);
        lemma_groups_totals_bound(mine, 0xFFFF_FFFF_FFFF_FFFF);
        lemma_report_totals_in_range(rest);
        let r = report_of(s);
        assert(forall|i: int| 1 <= i < r.len() ==> r[i] == report_of(rest)[i - 1]);
        assert forall|i: int, j: int| 0 <= i < r.len() && 0 <= j < r[i].groups.len() implies ((
        #[trigger] r[i].groups[j]).total > i128::MIN && forall|l: int|
            0 <= l < r[i].groups[j].subs.len() ==> (#[trigger] r[i].groups[j].subs[l]).total
                > i128::MIN) by {
            if i > 0 {
                assert(report_of(rest)[i - 1].groups[j].total > i128::MIN);
                assert(forall|l: int| 0 <= l < report_of(rest)[i - 1].groups[j].subs.len() ==> (
                #[trigger] report_of(rest)[i - 1].groups[j].subs[l]).total > i128::MIN);
            }
        }
    }
}

} // verus!
